//! The trivial strategy for the constant value one half: it is already
//! exhausted and emits nothing.

use vstd::prelude::*;
use crate::protocol::Reduction;

verus! {

/// The always-exhausted generator of the value one half.
pub struct One {}

/// Build the generator.
pub fn new() -> (r: One) {
    One {}
}

impl One {
    /// Report exhaustion: the denoted value is exactly one half.
    pub fn egest(&mut self) -> (r: Option<Reduction>)
        ensures
            r is None,
            *final(self) == *old(self),
    {
        None
    }
}

} // verus!
