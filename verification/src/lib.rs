//! Sparse direct solvers, and the Krylov methods that use them, over any scalar
//! with the operations of [`scalar::Scalar`].
pub mod algebra;
pub mod blr;
pub mod blr_grid;
pub mod blr_laws;
pub mod columns;
pub mod condition;
pub mod condition_laws;
pub mod count_laws;
pub mod counts;
pub mod diagnostics;
pub mod error;
pub mod exact;
pub mod flat;
pub mod gf7;
pub mod independence;
pub mod klu;
pub mod krylov;
pub mod matrix_ops;
pub mod multifrontal;
pub mod norm_laws;
pub mod reach;
pub mod scalar;
pub mod seqs;
pub mod sorted;
pub mod sparse;
pub mod triplets;
