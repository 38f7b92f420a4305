//! Sparse symmetric `L D L^T` factorization by fronts.

pub mod assembly;
pub mod block_laws;
pub mod block_solve;
pub mod dense;
pub mod diagonal;
pub mod driver;
pub mod export;
pub mod factorize;
pub mod factors;
pub mod frame;
pub mod fronts;
pub mod kernel;
pub mod laws;
pub mod model;
pub mod node;
pub mod order;
pub mod params;
pub mod parity;
pub mod permute;
pub mod permute_laws;
pub mod pivot_laws;
pub mod profile;
pub mod reconstruct;
pub mod schur;
pub mod stats;
pub mod tasks;
pub mod tree;
pub mod validate;
pub mod workers;
