//! Krylov iterations around a preconditioner.

pub mod arnoldi;
pub mod block;
pub mod cg;
pub mod closures;
pub mod conjugacy;
pub mod cr;
pub mod gmres;
pub mod hermitian;
pub mod laws;
pub mod low_precision;
pub mod operator;
pub mod operator_laws;
pub mod panel;
pub mod panel_laws;
pub mod panel_termination;
pub mod sweep;
pub mod termination;
pub mod vectors;
