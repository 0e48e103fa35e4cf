//! Combinatorial core of an incremental Bowyer-Watson Delaunay triangulation in two and
//! three dimensions: the vertex and simplex store, the cavity walk, the re-triangulation
//! records and their commit, and the scheduler that splits insertions into conflict-free
//! waves. Geometric predicates reach it as closures over ids.

pub mod table;
pub mod schedule;
pub mod kernel;
pub mod commit;
pub mod tree;
