//! Cell domains. A domain is the set of tile identifiers still possible for
//! one grid cell, held as a membership vector over the dense tile ids: entry
//! `t` is true iff tile `t` is still a candidate for that cell.

use vstd::prelude::*;

verus! {

/// Number of candidates in a membership vector.
pub open spec fn popcnt(s: Seq<bool>) -> nat
    decreases s.len(),
{
    if s.len() == 0 {
        0
    } else {
        popcnt(s.drop_last()) + if s.last() {
            1nat
        } else {
            0nat
        }
    }
}

/// Every candidate of `a` is also a candidate of `b`.
pub open spec fn subset_of(a: Seq<bool>, b: Seq<bool>) -> bool {
    &&& a.len() == b.len()
    &&& forall|i: int| 0 <= i < a.len() && #[trigger] a[i] ==> b[i]
}

/// The domain still has at least one candidate.
pub open spec fn nonempty(s: Seq<bool>) -> bool {
    exists|i: int| 0 <= i < s.len() && #[trigger] s[i]
}

/// Shrinking a domain keeps it inside anything the old domain was inside.
pub proof fn lemma_subset_trans(a: Seq<bool>, b: Seq<bool>, c: Seq<bool>)
    requires
        subset_of(a, b),
        subset_of(b, c),
    ensures
        subset_of(a, c),
{
    assert forall|i: int| 0 <= i < a.len() && #[trigger] a[i] implies c[i] by {
        assert(b[i]);
    }
}

/// A smaller domain never has more candidates.
pub proof fn lemma_popcnt_le(a: Seq<bool>, b: Seq<bool>)
    requires
        subset_of(a, b),
    ensures
        popcnt(a) <= popcnt(b),
    decreases a.len(),
{
    if a.len() > 0 {
        assert forall|i: int| 0 <= i < a.drop_last().len() && #[trigger] a.drop_last()[i] implies b.drop_last()[i] by {
            assert(a[i]);
        }
        lemma_popcnt_le(a.drop_last(), b.drop_last());
        assert(a.last() ==> b.last());
    }
}

/// A properly smaller domain has strictly fewer candidates.
pub proof fn lemma_popcnt_lt(a: Seq<bool>, b: Seq<bool>)
    requires
        subset_of(a, b),
        exists|i: int| 0 <= i < b.len() && #[trigger] b[i] && !a[i],
    ensures
        popcnt(a) < popcnt(b),
    decreases a.len(),
{
    let w = choose|i: int| 0 <= i < b.len() && #[trigger] b[i] && !a[i];
    assert forall|i: int| 0 <= i < a.drop_last().len() && #[trigger] a.drop_last()[i] implies b.drop_last()[i] by {
        assert(a[i]);
    }
    if w == a.len() - 1 {
        lemma_popcnt_le(a.drop_last(), b.drop_last());
        assert(b.last() && !a.last());
    } else {
        assert(b.drop_last()[w] && !a.drop_last()[w]);
        lemma_popcnt_lt(a.drop_last(), b.drop_last());
        assert(a.last() ==> b.last());
    }
}

/// A domain has a candidate iff its count is at least one.
pub proof fn lemma_nonempty_popcnt(s: Seq<bool>)
    ensures
        nonempty(s) <==> popcnt(s) >= 1,
    decreases s.len(),
{
    if s.len() > 0 {
        lemma_nonempty_popcnt(s.drop_last());
        if s.last() {
            assert(nonempty(s));
        } else {
            if nonempty(s) {
                let w = choose|i: int| 0 <= i < s.len() && #[trigger] s[i];
                assert(s.drop_last()[w]);
                assert(nonempty(s.drop_last()));
            }
            if nonempty(s.drop_last()) {
                let w = choose|i: int| 0 <= i < s.drop_last().len() && #[trigger] s.drop_last()[i];
                assert(s[w]);
            }
        }
    }
}

/// A domain with two distinct candidates has a count of at least two.
pub proof fn lemma_popcnt_two(s: Seq<bool>, i: int, j: int)
    requires
        0 <= i < s.len(),
        0 <= j < s.len(),
        i != j,
        s[i],
        s[j],
    ensures
        popcnt(s) >= 2,
    decreases s.len(),
{
    let lo = if i < j {
        i
    } else {
        j
    };
    let hi = if i < j {
        j
    } else {
        i
    };
    if hi == s.len() - 1 {
        assert(s.drop_last()[lo]);
        lemma_nonempty_popcnt(s.drop_last());
    } else {
        assert(s.drop_last()[lo] && s.drop_last()[hi]);
        lemma_popcnt_two(s.drop_last(), lo, hi);
    }
}

/// A domain whose only candidate is `t` has exactly one candidate.
pub proof fn lemma_popcnt_singleton(s: Seq<bool>, t: int)
    requires
        0 <= t < s.len(),
        forall|i: int| 0 <= i < s.len() ==> (#[trigger] s[i] <==> i == t),
    ensures
        popcnt(s) == 1,
    decreases s.len(),
{
    if t == s.len() - 1 {
        lemma_nonempty_popcnt(s.drop_last());
        assert(!nonempty(s.drop_last())) by {
            if nonempty(s.drop_last()) {
                let w = choose|i: int| 0 <= i < s.drop_last().len() && #[trigger] s.drop_last()[i];
                assert(s[w]);
            }
        }
    } else {
        assert(forall|i: int|
            0 <= i < s.drop_last().len() ==> (#[trigger] s.drop_last()[i] <==> i == t)) by {
            assert(forall|i: int| 0 <= i < s.drop_last().len() ==> s.drop_last()[i] == s[i]);
        }
        lemma_popcnt_singleton(s.drop_last(), t);
        assert(!s.last());
    }
}

/// Total candidate count of one row of cells.
pub open spec fn row_tot(r: Seq<Vec<bool>>) -> nat
    decreases r.len(),
{
    if r.len() == 0 {
        0
    } else {
        row_tot(r.drop_last()) + popcnt(r.last()@)
    }
}

/// Total candidate count of a whole lattice of cells, rows first.
pub open spec fn grid_tot(c: Seq<Vec<Vec<bool>>>) -> nat
    decreases c.len(),
{
    if c.len() == 0 {
        0
    } else {
        grid_tot(c.drop_last()) + row_tot(c.last()@)
    }
}

pub proof fn lemma_row_tot_le(r1: Seq<Vec<bool>>, r2: Seq<Vec<bool>>)
    requires
        r1.len() == r2.len(),
        forall|i: int| 0 <= i < r1.len() ==> popcnt(#[trigger] r1[i]@) <= popcnt(#[trigger] r2[i]@),
    ensures
        row_tot(r1) <= row_tot(r2),
    decreases r1.len(),
{
    if r1.len() > 0 {
        lemma_row_tot_le(r1.drop_last(), r2.drop_last());
    }
}

pub proof fn lemma_row_tot_lt(r1: Seq<Vec<bool>>, r2: Seq<Vec<bool>>, w: int)
    requires
        r1.len() == r2.len(),
        forall|i: int| 0 <= i < r1.len() ==> popcnt(#[trigger] r1[i]@) <= popcnt(#[trigger] r2[i]@),
        0 <= w < r1.len(),
        popcnt(r1[w]@) < popcnt(r2[w]@),
    ensures
        row_tot(r1) < row_tot(r2),
    decreases r1.len(),
{
    if w == r1.len() - 1 {
        lemma_row_tot_le(r1.drop_last(), r2.drop_last());
    } else {
        lemma_row_tot_lt(r1.drop_last(), r2.drop_last(), w);
    }
}

pub proof fn lemma_grid_tot_le(c1: Seq<Vec<Vec<bool>>>, c2: Seq<Vec<Vec<bool>>>)
    requires
        c1.len() == c2.len(),
        forall|y: int| 0 <= y < c1.len() ==> (#[trigger] c1[y]@).len() == (#[trigger] c2[y]@).len(),
        forall|y: int, x: int|
            0 <= y < c1.len() && 0 <= x < c1[y]@.len() ==> popcnt(#[trigger] c1[y]@[x]@) <= popcnt(
                #[trigger] c2[y]@[x]@,
            ),
    ensures
        grid_tot(c1) <= grid_tot(c2),
    decreases c1.len(),
{
    if c1.len() > 0 {
        lemma_grid_tot_le(c1.drop_last(), c2.drop_last());
        lemma_row_tot_le(c1.last()@, c2.last()@);
    }
}

pub proof fn lemma_grid_tot_lt(c1: Seq<Vec<Vec<bool>>>, c2: Seq<Vec<Vec<bool>>>, wx: int, wy: int)
    requires
        c1.len() == c2.len(),
        forall|y: int| 0 <= y < c1.len() ==> (#[trigger] c1[y]@).len() == (#[trigger] c2[y]@).len(),
        forall|y: int, x: int|
            0 <= y < c1.len() && 0 <= x < c1[y]@.len() ==> popcnt(#[trigger] c1[y]@[x]@) <= popcnt(
                #[trigger] c2[y]@[x]@,
            ),
        0 <= wy < c1.len(),
        0 <= wx < c1[wy]@.len(),
        popcnt(c1[wy]@[wx]@) < popcnt(c2[wy]@[wx]@),
    ensures
        grid_tot(c1) < grid_tot(c2),
    decreases c1.len(),
{
    if wy == c1.len() - 1 {
        lemma_grid_tot_le(c1.drop_last(), c2.drop_last());
        lemma_row_tot_lt(c1.last()@, c2.last()@, wx);
    } else {
        lemma_grid_tot_lt(c1.drop_last(), c2.drop_last(), wx, wy);
        lemma_row_tot_le(c1.last()@, c2.last()@);
    }
}

/// One when the domain is still uncollapsed (two or more candidates), else
/// zero.
pub open spec fn dom_unc(s: Seq<bool>) -> nat {
    if popcnt(s) >= 2 {
        1
    } else {
        0
    }
}

/// How many cells of one row are still uncollapsed.
pub open spec fn row_unc(r: Seq<Vec<bool>>) -> nat
    decreases r.len(),
{
    if r.len() == 0 {
        0
    } else {
        row_unc(r.drop_last()) + dom_unc(r.last()@)
    }
}

/// How many cells of a whole lattice are still uncollapsed, rows first.
pub open spec fn grid_unc(c: Seq<Vec<Vec<bool>>>) -> nat
    decreases c.len(),
{
    if c.len() == 0 {
        0
    } else {
        grid_unc(c.drop_last()) + row_unc(c.last()@)
    }
}

pub proof fn lemma_row_unc_le(r1: Seq<Vec<bool>>, r2: Seq<Vec<bool>>)
    requires
        r1.len() == r2.len(),
        forall|i: int| 0 <= i < r1.len() ==> dom_unc(#[trigger] r1[i]@) <= dom_unc(#[trigger] r2[i]@),
    ensures
        row_unc(r1) <= row_unc(r2),
    decreases r1.len(),
{
    if r1.len() > 0 {
        lemma_row_unc_le(r1.drop_last(), r2.drop_last());
    }
}

pub proof fn lemma_row_unc_lt(r1: Seq<Vec<bool>>, r2: Seq<Vec<bool>>, w: int)
    requires
        r1.len() == r2.len(),
        forall|i: int| 0 <= i < r1.len() ==> dom_unc(#[trigger] r1[i]@) <= dom_unc(#[trigger] r2[i]@),
        0 <= w < r1.len(),
        dom_unc(r1[w]@) < dom_unc(r2[w]@),
    ensures
        row_unc(r1) < row_unc(r2),
    decreases r1.len(),
{
    if w == r1.len() - 1 {
        lemma_row_unc_le(r1.drop_last(), r2.drop_last());
    } else {
        lemma_row_unc_lt(r1.drop_last(), r2.drop_last(), w);
    }
}

pub proof fn lemma_grid_unc_le(c1: Seq<Vec<Vec<bool>>>, c2: Seq<Vec<Vec<bool>>>)
    requires
        c1.len() == c2.len(),
        forall|y: int| 0 <= y < c1.len() ==> (#[trigger] c1[y]@).len() == (#[trigger] c2[y]@).len(),
        forall|y: int, x: int|
            0 <= y < c1.len() && 0 <= x < c1[y]@.len() ==> dom_unc(#[trigger] c1[y]@[x]@) <= dom_unc(
                #[trigger] c2[y]@[x]@,
            ),
    ensures
        grid_unc(c1) <= grid_unc(c2),
    decreases c1.len(),
{
    if c1.len() > 0 {
        lemma_grid_unc_le(c1.drop_last(), c2.drop_last());
        lemma_row_unc_le(c1.last()@, c2.last()@);
    }
}

pub proof fn lemma_grid_unc_lt(c1: Seq<Vec<Vec<bool>>>, c2: Seq<Vec<Vec<bool>>>, wx: int, wy: int)
    requires
        c1.len() == c2.len(),
        forall|y: int| 0 <= y < c1.len() ==> (#[trigger] c1[y]@).len() == (#[trigger] c2[y]@).len(),
        forall|y: int, x: int|
            0 <= y < c1.len() && 0 <= x < c1[y]@.len() ==> dom_unc(#[trigger] c1[y]@[x]@) <= dom_unc(
                #[trigger] c2[y]@[x]@,
            ),
        0 <= wy < c1.len(),
        0 <= wx < c1[wy]@.len(),
        dom_unc(c1[wy]@[wx]@) < dom_unc(c2[wy]@[wx]@),
    ensures
        grid_unc(c1) < grid_unc(c2),
    decreases c1.len(),
{
    if wy == c1.len() - 1 {
        lemma_grid_unc_le(c1.drop_last(), c2.drop_last());
        lemma_row_unc_lt(c1.last()@, c2.last()@, wx);
    } else {
        lemma_grid_unc_lt(c1.drop_last(), c2.drop_last(), wx, wy);
        lemma_row_unc_le(c1.last()@, c2.last()@);
    }
}

pub proof fn lemma_row_unc_bound(r: Seq<Vec<bool>>)
    ensures
        row_unc(r) <= r.len(),
    decreases r.len(),
{
    if r.len() > 0 {
        lemma_row_unc_bound(r.drop_last());
    }
}

/// At most one uncollapsed cell per cell: the count is bounded by the
/// lattice area.
pub proof fn lemma_grid_unc_bound(c: Seq<Vec<Vec<bool>>>, w: int)
    requires
        w >= 0,
        forall|y: int| 0 <= y < c.len() ==> (#[trigger] c[y]@).len() == w,
    ensures
        grid_unc(c) <= c.len() * w,
    decreases c.len(),
{
    if c.len() > 0 {
        lemma_grid_unc_bound(c.drop_last(), w);
        lemma_row_unc_bound(c.last()@);
        assert((c.len() - 1) * w + w == c.len() * w) by (nonlinear_arith);
    } else {
        assert(0 * w == 0) by (nonlinear_arith);
    }
}

/// Counts the candidates of a domain.
pub fn count_true(v: &Vec<bool>) -> (n: usize)
    ensures
        n == popcnt(v@),
{
    let mut n: usize = 0;
    let mut i: usize = 0;
    while i < v.len()
        invariant
            i <= v.len(),
            n <= i,
            n == popcnt(v@.take(i as int)),
        decreases v.len() - i,
    {
        proof {
            assert(v@.take(i + 1).drop_last() =~= v@.take(i as int));
            assert(v@.take(i + 1).last() == v@[i as int]);
        }
        if v[i] {
            n = n + 1;
        }
        i = i + 1;
    }
    proof {
        assert(v@.take(v@.len() as int) =~= v@);
    }
    n
}

/// Tests whether the domain still has any candidate.
pub fn any_true(v: &Vec<bool>) -> (r: bool)
    ensures
        r == nonempty(v@),
{
    let mut i: usize = 0;
    while i < v.len()
        invariant
            i <= v.len(),
            forall|j: int| 0 <= j < i ==> !v@[j],
        decreases v.len() - i,
    {
        if v[i] {
            return true;
        }
        i = i + 1;
    }
    false
}

/// Intersects `dom` with `allowed` in place; reports whether any candidate
/// was removed.
pub fn intersect(dom: &mut Vec<bool>, allowed: &Vec<bool>) -> (changed: bool)
    requires
        old(dom).len() == allowed.len(),
    ensures
        final(dom).len() == old(dom).len(),
        forall|i: int|
            0 <= i < old(dom)@.len() ==> #[trigger] final(dom)@[i] == (old(dom)@[i] && allowed@[i]),
        changed == exists|i: int| 0 <= i < old(dom)@.len() && #[trigger] old(dom)@[i] && !allowed@[i],
{
    let mut changed: bool = false;
    let mut i: usize = 0;
    while i < dom.len()
        invariant
            i <= dom.len(),
            dom.len() == old(dom).len(),
            allowed.len() == old(dom).len(),
            forall|j: int| 0 <= j < i ==> #[trigger] dom@[j] == (old(dom)@[j] && allowed@[j]),
            forall|j: int| i <= j < dom@.len() ==> #[trigger] dom@[j] == old(dom)@[j],
            changed == exists|j: int| 0 <= j < i && #[trigger] old(dom)@[j] && !allowed@[j],
        decreases dom.len() - i,
    {
        if dom[i] && !allowed[i] {
            dom[i] = false;
            changed = true;
        }
        i = i + 1;
    }
    changed
}

/// A fresh full domain: all `n` tiles are candidates.
pub fn full_domain(n: usize) -> (v: Vec<bool>)
    ensures
        v@.len() == n,
        forall|i: int| 0 <= i < n ==> #[trigger] v@[i],
{
    let mut v: Vec<bool> = Vec::new();
    let mut i: usize = 0;
    while i < n
        invariant
            i <= n,
            v@.len() == i,
            forall|j: int| 0 <= j < i ==> #[trigger] v@[j],
        decreases n - i,
    {
        v.push(true);
        i = i + 1;
    }
    v
}

/// An exact copy of a domain.
pub fn copy_domain(v: &Vec<bool>) -> (r: Vec<bool>)
    ensures
        r@ == v@,
{
    let mut r: Vec<bool> = Vec::new();
    let mut i: usize = 0;
    while i < v.len()
        invariant
            i <= v.len(),
            r@ =~= v@.take(i as int),
        decreases v.len() - i,
    {
        r.push(v[i]);
        i = i + 1;
    }
    proof {
        assert(v@.take(v@.len() as int) =~= v@);
    }
    r
}

} // verus!
