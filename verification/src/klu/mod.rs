//! KLU-style sparse LU: block triangular form, then a left-looking
//! Gilbert-Peierls factorization of every diagonal block.

pub mod analyze;
pub mod block;
pub mod btf;
pub mod estimate;
pub mod export;
pub mod factor;
pub mod fill;
pub mod form;
pub mod gather;
pub mod graph;
pub mod laws;
pub mod matching;
pub mod model;
pub mod ordering;
pub mod pipeline;
pub mod pivot_laws;
pub mod plan;
pub mod refactor;
pub mod refine;
pub mod repeat;
pub mod replay;
pub mod scc;
pub mod settings;
pub mod solve;
pub mod solver;
pub mod subst;
pub mod symbolic;
pub mod system;
pub mod trace;
pub mod work_laws;
