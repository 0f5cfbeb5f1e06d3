//! Tile records, schema validation, and the tile catalog with its interned
//! edge-label vocabulary. Labels are deduplicated by exact string equality
//! into dense integer ids, in order of first occurrence (north, west, south,
//! east within each record).

use vstd::prelude::*;

verus! {

/// A side of a tile, and likewise a direction of travel on the grid
/// (north is towards smaller row indices, west towards smaller columns).
#[derive(Clone, Copy, PartialEq, Eq, Structural, Debug)]
pub enum Direction {
    North,
    West,
    South,
    East,
}

/// The side that touches a tile's side `d` on the neighbouring cell in
/// direction `d`.
pub open spec fn opposite(d: Direction) -> Direction {
    match d {
        Direction::North => Direction::South,
        Direction::West => Direction::East,
        Direction::South => Direction::North,
        Direction::East => Direction::West,
    }
}

/// The direction whose index is `i` (east for any out-of-range index).
pub open spec fn dir_of(i: int) -> Direction {
    if i == 0 {
        Direction::North
    } else if i == 1 {
        Direction::West
    } else if i == 2 {
        Direction::South
    } else {
        Direction::East
    }
}

pub open spec fn dir_index(d: Direction) -> int {
    match d {
        Direction::North => 0,
        Direction::West => 1,
        Direction::South => 2,
        Direction::East => 3,
    }
}

impl Direction {
    pub fn flip(self) -> (r: Direction)
        ensures
            r == opposite(self),
    {
        match self {
            Direction::North => Direction::South,
            Direction::West => Direction::East,
            Direction::South => Direction::North,
            Direction::East => Direction::West,
        }
    }

    pub fn index(self) -> (i: usize)
        ensures
            i == dir_index(self),
    {
        match self {
            Direction::North => 0,
            Direction::West => 1,
            Direction::South => 2,
            Direction::East => 3,
        }
    }

    pub fn from_index(i: usize) -> (d: Direction)
        requires
            i < 4,
        ensures
            dir_index(d) == i as int,
    {
        if i == 0 {
            Direction::North
        } else if i == 1 {
            Direction::West
        } else if i == 2 {
            Direction::South
        } else {
            Direction::East
        }
    }
}

/// One tile definition as handed in by the external loader: a stable name,
/// an opaque image-resource reference, and up to four edge labels. A missing
/// label is a schema fault caught at catalog-build time.
#[derive(Clone)]
pub struct TileRecord {
    pub name: String,
    pub image: String,
    pub north: Option<String>,
    pub west: Option<String>,
    pub south: Option<String>,
    pub east: Option<String>,
}

/// A malformed tile catalog: a record omits one of its four edge labels, or
/// reuses the name of an earlier record.
#[derive(Clone, Copy, PartialEq, Eq, Structural, Debug)]
pub enum SchemaError {
    MissingEdge { tile: usize, direction: Direction },
    DuplicateId { tile: usize },
}

pub open spec fn edge_field(r: TileRecord, d: Direction) -> Option<String> {
    match d {
        Direction::North => r.north,
        Direction::West => r.west,
        Direction::South => r.south,
        Direction::East => r.east,
    }
}

/// The label characters of one edge of a record (empty when absent).
pub open spec fn edge_str(r: TileRecord, d: Direction) -> Seq<char> {
    match edge_field(r, d) {
        Option::Some(s) => s@,
        Option::None => Seq::empty(),
    }
}

/// The schema fault of record `i` alone, if any: a missing edge (checked
/// north, west, south, east in that order), else a name already used by an
/// earlier record.
pub open spec fn record_error(recs: Seq<TileRecord>, i: int) -> Option<SchemaError> {
    if edge_field(recs[i], Direction::North) is None {
        Option::Some(SchemaError::MissingEdge { tile: i as usize, direction: Direction::North })
    } else if edge_field(recs[i], Direction::West) is None {
        Option::Some(SchemaError::MissingEdge { tile: i as usize, direction: Direction::West })
    } else if edge_field(recs[i], Direction::South) is None {
        Option::Some(SchemaError::MissingEdge { tile: i as usize, direction: Direction::South })
    } else if edge_field(recs[i], Direction::East) is None {
        Option::Some(SchemaError::MissingEdge { tile: i as usize, direction: Direction::East })
    } else if exists|j: int| 0 <= j < i && (#[trigger] recs[j].name)@ == recs[i].name@ {
        Option::Some(SchemaError::DuplicateId { tile: i as usize })
    } else {
        Option::None
    }
}

pub open spec fn first_error_from(recs: Seq<TileRecord>, i: int) -> Option<SchemaError>
    decreases recs.len() - i,
{
    if i < 0 || i >= recs.len() {
        Option::None
    } else if record_error(recs, i) is Some {
        record_error(recs, i)
    } else {
        first_error_from(recs, i + 1)
    }
}

/// The first schema fault of a record list in scan order, if any.
pub open spec fn first_error(recs: Seq<TileRecord>) -> Option<SchemaError> {
    first_error_from(recs, 0)
}

pub proof fn lemma_first_error_skip(recs: Seq<TileRecord>, i: int)
    requires
        0 <= i <= recs.len(),
        forall|j: int| 0 <= j < i ==> record_error(recs, j) is None,
    ensures
        first_error(recs) == first_error_from(recs, i),
    decreases i,
{
    if i > 0 {
        lemma_first_error_skip(recs, i - 1);
    }
}

/// Appends a label to the vocabulary unless an equal one is already interned.
pub open spec fn add_label(v: Seq<Seq<char>>, l: Seq<char>) -> Seq<Seq<char>> {
    if v.contains(l) {
        v
    } else {
        v.push(l)
    }
}

pub open spec fn add_record_labels(v: Seq<Seq<char>>, r: TileRecord) -> Seq<Seq<char>> {
    add_label(
        add_label(
            add_label(add_label(v, edge_str(r, Direction::North)), edge_str(r, Direction::West)),
            edge_str(r, Direction::South),
        ),
        edge_str(r, Direction::East),
    )
}

pub open spec fn vocab_upto(recs: Seq<TileRecord>, i: int) -> Seq<Seq<char>>
    decreases i,
{
    if i <= 0 {
        Seq::empty()
    } else {
        add_record_labels(vocab_upto(recs, i - 1), recs[i - 1])
    }
}

/// The interned edge-label vocabulary of a record list, in order of first
/// occurrence.
pub open spec fn vocab_of(recs: Seq<TileRecord>) -> Seq<Seq<char>> {
    vocab_upto(recs, recs.len() as int)
}

pub open spec fn distinct_labels(v: Seq<Seq<char>>) -> bool {
    forall|i: int, j: int| 0 <= i < j < v.len() ==> v[i] != v[j]
}

pub proof fn lemma_add_label_distinct(v: Seq<Seq<char>>, l: Seq<char>)
    requires
        distinct_labels(v),
    ensures
        distinct_labels(add_label(v, l)),
{
    if !v.contains(l) {
        let w = v.push(l);
        assert forall|i: int, j: int| 0 <= i < j < w.len() implies w[i] != w[j] by {
            if j == v.len() {
                assert(!v.contains(l));
                assert(v[i] != l);
            }
        }
    }
}

pub proof fn lemma_vocab_distinct(recs: Seq<TileRecord>, i: int)
    ensures
        distinct_labels(vocab_upto(recs, i)),
    decreases i,
{
    if i <= 0 {
        assert(distinct_labels(Seq::<Seq<char>>::empty()));
    } else {
        lemma_vocab_distinct(recs, i - 1);
        let v = vocab_upto(recs, i - 1);
        let r = recs[i - 1];
        lemma_add_label_distinct(v, edge_str(r, Direction::North));
        lemma_add_label_distinct(
            add_label(v, edge_str(r, Direction::North)),
            edge_str(r, Direction::West),
        );
        lemma_add_label_distinct(
            add_label(add_label(v, edge_str(r, Direction::North)), edge_str(r, Direction::West)),
            edge_str(r, Direction::South),
        );
        lemma_add_label_distinct(
            add_label(
                add_label(
                    add_label(v, edge_str(r, Direction::North)),
                    edge_str(r, Direction::West),
                ),
                edge_str(r, Direction::South),
            ),
            edge_str(r, Direction::East),
        );
    }
}

/// The label characters of each interned string, in vocabulary order.
pub open spec fn labels_view(labels: Seq<String>) -> Seq<Seq<char>> {
    Seq::new(labels.len(), |i: int| labels[i]@)
}

/// One validated tile: its name, its opaque image reference, and the
/// interned label id of each of its four edges.
#[derive(Debug)]
pub struct TileDef {
    pub name: String,
    pub image: String,
    pub north: usize,
    pub west: usize,
    pub south: usize,
    pub east: usize,
}

pub open spec fn edge_id(t: TileDef, d: Direction) -> int {
    match d {
        Direction::North => t.north as int,
        Direction::West => t.west as int,
        Direction::South => t.south as int,
        Direction::East => t.east as int,
    }
}

/// An immutable set of validated tile definitions plus the interned
/// edge-label vocabulary they refer into.
#[derive(Debug)]
pub struct TileCatalog {
    pub tiles: Vec<TileDef>,
    pub labels: Vec<String>,
}

impl TileCatalog {
    /// Interned labels are pairwise distinct and every edge id refers into
    /// the vocabulary.
    pub open spec fn wf(self) -> bool {
        &&& distinct_labels(labels_view(self.labels@))
        &&& forall|t: int, d: Direction|
            0 <= t < self.tiles@.len() ==> 0 <= #[trigger] edge_id(self.tiles@[t], d)
                < self.labels@.len()
    }

    /// The interned label id on side `d` of tile `t`.
    pub open spec fn edge_of(self, t: int, d: Direction) -> int {
        edge_id(self.tiles@[t], d)
    }

    /// The catalog `build` derives from a record list: every record's name
    /// and image kept in order, the vocabulary interned in first-occurrence
    /// order, and every edge id naming exactly its record's label.
    pub open spec fn is_catalog_of(self, recs: Seq<TileRecord>) -> bool {
        &&& self.wf()
        &&& self.tiles@.len() == recs.len()
        &&& labels_view(self.labels@) == vocab_of(recs)
        &&& forall|t: int|
            0 <= t < recs.len() ==> (#[trigger] self.tiles@[t]).name@ == recs[t].name@
                && self.tiles@[t].image@ == recs[t].image@
        &&& forall|t: int, d: Direction|
            0 <= t < recs.len() ==> labels_view(self.labels@)[#[trigger] self.edge_of(t, d)]
                == edge_str(recs[t], d)
    }

    /// Validates a record list and interns its edge labels.
    ///
    /// Succeeds exactly when every record carries all four edge labels and
    /// no record reuses an earlier record's name; otherwise returns the
    /// first schema fault in scan order.
    pub fn build(records: Vec<TileRecord>) -> (r: Result<TileCatalog, SchemaError>)
        ensures
            r is Ok <==> first_error(records@) is None,
            r matches Err(e) ==> Option::Some(e) == first_error(records@),
            r matches Ok(cat) ==> cat.is_catalog_of(records@),
    {
        let mut tiles: Vec<TileDef> = Vec::new();
        let mut labels: Vec<String> = Vec::new();
        let mut i: usize = 0;
        while i < records.len()
            invariant
                i <= records@.len(),
                tiles@.len() == i,
                forall|j: int| 0 <= j < i ==> record_error(records@, j) is None,
                labels_view(labels@) == vocab_upto(records@, i as int),
                forall|t: int|
                    0 <= t < i ==> (#[trigger] tiles@[t]).name@ == records@[t].name@
                        && tiles@[t].image@ == records@[t].image@,
                forall|t: int, d: Direction|
                    0 <= t < i ==> 0 <= #[trigger] edge_id(tiles@[t], d) < labels@.len()
                        && labels_view(labels@)[edge_id(tiles@[t], d)] == edge_str(records@[t], d),
            decreases records@.len() - i,
        {
            let rec = &records[i];
            let north_s = match &rec.north {
                Option::Some(s) => s,
                Option::None => {
                    proof {
                        lemma_first_error_skip(records@, i as int);
                    }
                    return Err(SchemaError::MissingEdge { tile: i, direction: Direction::North });
                },
            };
            let west_s = match &rec.west {
                Option::Some(s) => s,
                Option::None => {
                    proof {
                        lemma_first_error_skip(records@, i as int);
                    }
                    return Err(SchemaError::MissingEdge { tile: i, direction: Direction::West });
                },
            };
            let south_s = match &rec.south {
                Option::Some(s) => s,
                Option::None => {
                    proof {
                        lemma_first_error_skip(records@, i as int);
                    }
                    return Err(SchemaError::MissingEdge { tile: i, direction: Direction::South });
                },
            };
            let east_s = match &rec.east {
                Option::Some(s) => s,
                Option::None => {
                    proof {
                        lemma_first_error_skip(records@, i as int);
                    }
                    return Err(SchemaError::MissingEdge { tile: i, direction: Direction::East });
                },
            };
            let mut j: usize = 0;
            while j < tiles.len()
                invariant
                    j <= tiles@.len(),
                    tiles@.len() == i,
                    i < records@.len(),
                    *rec == records@[i as int],
                    forall|jj: int| 0 <= jj < i ==> record_error(records@, jj) is None,
                    edge_field(records@[i as int], Direction::North) is Some,
                    edge_field(records@[i as int], Direction::West) is Some,
                    edge_field(records@[i as int], Direction::South) is Some,
                    edge_field(records@[i as int], Direction::East) is Some,
                    forall|t: int|
                        0 <= t < i ==> (#[trigger] tiles@[t]).name@ == records@[t].name@,
                    forall|k: int| 0 <= k < j ==> (#[trigger] records@[k].name)@ != records@[i as int].name@,
                decreases tiles@.len() - j,
            {
                if str_eq(&tiles[j].name, &rec.name) {
                    proof {
                        assert((records@[j as int].name)@ == records@[i as int].name@);
                        lemma_first_error_skip(records@, i as int);
                    }
                    return Err(SchemaError::DuplicateId { tile: i });
                }
                proof {
                    assert((records@[j as int].name)@ != records@[i as int].name@);
                }
                j = j + 1;
            }
            let ghost v0 = labels_view(labels@);
            let n_id = intern(&mut labels, north_s);
            let w_id = intern(&mut labels, west_s);
            let s_id = intern(&mut labels, south_s);
            let e_id = intern(&mut labels, east_s);
            proof {
                assert(labels_view(labels@) == add_record_labels(v0, records@[i as int]));
            }
            tiles.push(
                TileDef {
                    name: rec.name.clone(),
                    image: rec.image.clone(),
                    north: n_id,
                    west: w_id,
                    south: s_id,
                    east: e_id,
                },
            );
            i = i + 1;
        }
        proof {
            lemma_first_error_skip(records@, records@.len() as int);
            lemma_vocab_distinct(records@, records@.len() as int);
        }
        Ok(TileCatalog { tiles, labels })
    }

    pub fn tile_count(&self) -> (n: usize)
        ensures
            n == self.tiles@.len(),
    {
        self.tiles.len()
    }

    pub fn label_count(&self) -> (n: usize)
        ensures
            n == self.labels@.len(),
    {
        self.labels.len()
    }

    /// The interned label id on side `d` of tile `t`.
    pub fn edge_label_id(&self, t: usize, d: Direction) -> (id: usize)
        requires
            t < self.tiles@.len(),
        ensures
            id == self.edge_of(t as int, d),
    {
        let tile = &self.tiles[t];
        match d {
            Direction::North => tile.north,
            Direction::West => tile.west,
            Direction::South => tile.south,
            Direction::East => tile.east,
        }
    }

    pub fn name_of(&self, t: usize) -> (s: &String)
        requires
            t < self.tiles@.len(),
        ensures
            s@ == self.tiles@[t as int].name@,
    {
        &self.tiles[t].name
    }

    pub fn image_of(&self, t: usize) -> (s: &String)
        requires
            t < self.tiles@.len(),
        ensures
            s@ == self.tiles@[t as int].image@,
    {
        &self.tiles[t].image
    }

    pub fn label_of(&self, id: usize) -> (s: &String)
        requires
            id < self.labels@.len(),
        ensures
            s@ == labels_view(self.labels@)[id as int],
    {
        &self.labels[id]
    }
}

/// Exact string equality, stated over the character views.
fn str_eq(a: &String, b: &String) -> (r: bool)
    ensures
        r == (a@ == b@),
{
    *a == *b
}

/// Returns the id of `s` in the vocabulary, interning it first if absent.
fn intern(labels: &mut Vec<String>, s: &String) -> (id: usize)
    ensures
        labels_view(final(labels)@) == add_label(labels_view(old(labels)@), s@),
        id < final(labels)@.len(),
        labels_view(final(labels)@)[id as int] == s@,
        final(labels)@.len() >= old(labels)@.len(),
        forall|i: int| 0 <= i < old(labels)@.len() ==> final(labels)@[i] == old(labels)@[i],
{
    let mut i: usize = 0;
    while i < labels.len()
        invariant
            i <= labels@.len(),
            labels@ == old(labels)@,
            forall|j: int| 0 <= j < i ==> (#[trigger] labels@[j])@ != s@,
        decreases labels@.len() - i,
    {
        if str_eq(&labels[i], s) {
            proof {
                assert(labels_view(labels@)[i as int] == s@);
                assert(labels_view(labels@).contains(s@));
            }
            return i;
        }
        i = i + 1;
    }
    proof {
        assert(!labels_view(labels@).contains(s@)) by {
            if labels_view(labels@).contains(s@) {
                let w = choose|j: int|
                    0 <= j < labels_view(labels@).len() && labels_view(labels@)[j] == s@;
                assert((labels@[w])@ == s@);
            }
        }
    }
    let id = labels.len();
    labels.push(s.clone());
    proof {
        assert(labels_view(labels@) =~= labels_view(old(labels)@).push(s@));
    }
    id
}

} // verus!

