//! Sample permutation groups given by generators written as cycles.
pub mod mathieu12;
pub mod rubik;
pub mod util;
