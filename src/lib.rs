//! Finite permutation groups given by generating sets: group order through a
//! base and strong generating set built by the Schreier-Sims method, and a
//! test for whether a map between generating sets extends to a homomorphism.
pub mod perm;
pub mod group;
pub mod transversal;
pub mod stabilizer;
pub mod bignum;
pub mod random;
pub mod schreier;
pub mod lagrange;
pub mod homomorphism;
pub mod groups;
