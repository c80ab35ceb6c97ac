//! The errors that the adapters report.

use vstd::prelude::*;

verus! {

/// How many bits a read needed to succeed.
#[derive(Debug, Clone, Copy, PartialEq, Eq, Structural)]
pub struct NeedSize {
    pub bits: usize,
}

impl NeedSize {
    /// A need of `bits` bits.
    pub fn new(bits: usize) -> (r: Self)
        ensures
            r.bits == bits,
    {
        NeedSize { bits }
    }

    /// The number of bits that were asked for.
    pub fn bit_size(&self) -> (r: usize)
        ensures
            r == self.bits,
    {
        self.bits
    }
}

/// What an adapter can fail with.
#[derive(Debug, Clone, Copy, PartialEq, Eq, Structural)]
pub enum DekuError {
    /// The input ended before the bits that were asked for could be had.
    Incomplete(NeedSize),
    /// The output did not take the bytes.
    WriteError,
}

} // verus!
