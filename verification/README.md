# rslab

Sparse direct solvers and the Krylov methods that use them, written and proved
in Verus. The library is generic over the scalar: every contract speaks of the
operations of the `Real` and `Scalar` traits, and the laws that need exact
arithmetic ask for `Field`.

What is here:

- `klu`: LU factorization by diagonal blocks. Maximum transversal and strongly
  connected components give the block triangular form; each block is factored
  left-looking with threshold pivoting, and can be factored again on the frozen
  pattern, column by column in order or by workers (`klu/pipeline.rs`).
  `klu/system.rs` proves that the solves solve, `klu/repeat.rs` that
  repeated runs agree to the last bit, `klu/estimate.rs` that the estimate made
  from the analysis is exact when the pivots stay on the diagonal.
- `multifrontal`: LDL^T factorization over the supernodes of an assembly tree,
  in order or as a graph of tasks, with delayed pivots, partial factorization
  (Schur complement), export and statistics. The dense elimination of one front
  is a parameter, `FrontKernel`; `DiagonalKernel` is the one for quasi-definite
  matrices. `multifrontal/parity.rs` proves that the drivers succeed on the same
  matrices and give the same factors, `multifrontal/permute_laws.rs` what
  permuting does to the entries.
- `krylov`: restarted GMRES for one or several right-hand sides, COCG and COCR,
  with any factorization as the preconditioner.
- `condition`, `blr`, `blr_grid`: condition estimates, and low-rank compression
  of tiles.
- `algebra`, `scalar`, `seqs`, `sparse`, `triplets` and the other small modules:
  the vocabulary of the above.

`tests/` runs the library on floating-point scalars. `app/` is the ordinary Rust
around it: IEEE scalars, thread pools, clocks, closures with state, and what is
printed or serialized.
