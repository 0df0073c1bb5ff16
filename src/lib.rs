//! Reverse-mode differentiation of loops: checkpoint chains that replay a
//! loop's adjoint steps backward, keeping either every snapshot or only a
//! logarithmic number of them.
use vstd::prelude::*;

pub mod chain;
pub mod schedule;

pub use chain::{ctz_extend, CtzChain, FullChain};

verus! {

} // verus!
