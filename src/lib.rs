//! Geohash-indexed waypoint graphs: a geohash codec, a prefix trie over
//! geohash keys, k-nearest-neighbour search and A* routing.
pub mod dataset;
pub mod geohash;
pub mod knn;
pub mod label;
pub mod pseudo_random;
pub mod route;
mod text;
pub mod trie;

pub use dataset::{Connection, Dataset, Waypoint};
pub use knn::select_nearest;
pub use geohash::{encode, get_adjacent_cell, get_surrounding_cells, Direction, GeoError};
pub use pseudo_random::{LcgRng, XorShiftRng};
pub use trie::Trie;
