//! What a factorization reports about itself.

use vstd::prelude::*;

verus! {

/// Memory and work of a factorization, estimated before it runs.
#[derive(Debug, Clone, Copy, PartialEq, Eq)]
pub struct MemoryEstimate {
    /// Bytes of one value.
    pub value_bytes: usize,
    /// Entries of the factors.
    pub factor_nnz: u64,
    /// Bytes of the factors.
    pub factor_bytes: u64,
    /// Bytes of all dense panels.
    pub panels_all_bytes: u64,
    /// Bytes of the dense panels alive at the same time.
    pub panel_live_peak_bytes: u64,
    /// Bytes held at the peak.
    pub transient_peak_bytes: u64,
    /// Floating-point operations.
    pub factor_flops: u64,
    /// Operations on the longest dependency chain.
    pub critical_path_flops: u64,
    /// Tasks that may run at the same time.
    pub max_tree_width: usize,
}

/// One completed stage of the numeric work.
#[derive(Debug, Clone, Copy, PartialEq, Eq)]
pub struct Stage {
    pub name: &'static str,
    pub flops: u64,
    pub bytes: u64,
}

/// Sizes, the estimate where one was computed, and the stages so far.
#[derive(Debug, Clone)]
pub struct Diagnostics {
    pub threads: usize,
    pub n: usize,
    pub nnz_a: u64,
    pub factor_nnz: u64,
    pub estimate: Option<MemoryEstimate>,
    /// Blocks of the block triangular form, zero without it.
    pub btf_blocks: usize,
    pub stages: Vec<Stage>,
}

impl Diagnostics {
    /// The estimated operations, zero without an estimate.
    pub open spec fn flops_spec(&self) -> u64 {
        match self.estimate {
            Some(e) => e.factor_flops,
            None => 0,
        }
    }

    /// This is `before` with one more stage.
    pub open spec fn records(&self, before: Diagnostics, stage: Stage) -> bool {
        &&& self.stages@ == before.stages@.push(stage)
        &&& self.threads == before.threads
        &&& self.n == before.n
        &&& self.nnz_a == before.nnz_a
        &&& self.factor_nnz == before.factor_nnz
        &&& self.estimate == before.estimate
        &&& self.btf_blocks == before.btf_blocks
    }

    /// The estimated operations, zero without an estimate.
    pub fn flops(&self) -> (r: u64)
        ensures
            r == self.flops_spec(),
    {
        match &self.estimate {
            Some(e) => e.factor_flops,
            None => 0,
        }
    }

    /// Record a stage.
    pub fn push(&mut self, name: &'static str, flops: u64, bytes: u64)
        ensures
            final(self).records(*old(self), Stage { name, flops, bytes }),
    {
        self.stages.push(Stage { name, flops, bytes });
    }
}

} // verus!
