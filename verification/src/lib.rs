//! A Wave Function Collapse engine: tiles expose edge labels on their four
//! sides, and a rectangular grid is filled by constraint propagation so that
//! touching edges of adjacent cells always match.

pub mod domain;
pub mod grid;
pub mod model;
pub mod propagate;
pub mod solver;
pub mod tiles;
