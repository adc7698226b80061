//! Exploration of "catacomb numbers": integers reachable from a seed by
//! perturbing a bounded number of digits in a chosen positional base, each
//! classified as prime or composite.

pub mod bignum;
pub mod codec;
pub mod miller_rabin;
pub mod combinatorics;
pub mod catacombs;
pub mod explorer;
