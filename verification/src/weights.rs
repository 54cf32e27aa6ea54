//! Dispatch weight accounting for the asset operations.
//!
//! Weights are placeholders pending real benchmarks: a validation share,
//! a read share and a write share, summed with saturation.

use vstd::prelude::*;

verus! {

/// A two-part execution weight: computational time and proof size.
#[derive(Clone, Copy, PartialEq, Eq, Structural, Debug)]
pub struct Weight {
    pub ref_time: u64,
    pub proof_size: u64,
}

pub open spec fn spec_sat_add_u64(a: u64, b: u64) -> u64 {
    if a + b <= u64::MAX {
        (a + b) as u64
    } else {
        u64::MAX
    }
}

impl Weight {
    pub fn from_parts(ref_time: u64, proof_size: u64) -> (r: Self)
        ensures
            r.ref_time == ref_time,
            r.proof_size == proof_size,
    {
        Weight { ref_time, proof_size }
    }

    /// Component-wise sum, clamped at the largest representable weight.
    pub fn saturating_add(self, other: Self) -> (r: Self)
        ensures
            r.ref_time == spec_sat_add_u64(self.ref_time, other.ref_time),
            r.proof_size == spec_sat_add_u64(self.proof_size, other.proof_size),
    {
        Weight {
            ref_time: if self.ref_time <= u64::MAX - other.ref_time {
                self.ref_time + other.ref_time
            } else {
                u64::MAX
            },
            proof_size: if self.proof_size <= u64::MAX - other.proof_size {
                self.proof_size + other.proof_size
            } else {
                u64::MAX
            },
        }
    }
}

/// The weight of each asset operation; runtimes implement it, and the
/// unit impl carries the placeholder estimates.
pub trait WeightInfo {
    fn deposit() -> Weight;

    fn withdraw() -> Weight;
}

impl WeightInfo for () {
    /// Placeholder: validation, one read, one write.
    fn deposit() -> Weight {
        Weight::from_parts(10_000, 0).saturating_add(Weight::from_parts(25_000, 0)).saturating_add(
            Weight::from_parts(100_000, 0),
        )
    }

    fn withdraw() -> Weight {
        Weight::from_parts(10_000, 0).saturating_add(Weight::from_parts(25_000, 0)).saturating_add(
            Weight::from_parts(100_000, 0),
        )
    }
}

} // verus!
