//! The fixed-point unit that every score of this crate is counted in.

use vstd::prelude::*;

verus! {

/// The integer that stands for `1.0`.
pub const SCALE: u64 = 1_000_000_000_000_000_000;

} // verus!
