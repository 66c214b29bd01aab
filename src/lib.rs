//! Exact packings of a cubic volume by rigid polycube pieces: rotations and placements of
//! each piece as occupancy boards, and a pruned depth-first search over them.

pub mod bitset;
pub mod geometry;
pub mod placement;
pub mod puzzle;
pub mod arrangement;
pub mod solver;
pub mod symmetry;
