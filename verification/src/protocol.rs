//! Symbol vocabulary of the continued-logarithm representation.
//!
//! A value strictly between zero and one is described by a stream of
//! `Reduction` symbols.  An optional `Primer` in front of such a stream
//! extends the representation to the rest of the real line, and the three
//! `Special` values cover the boundary points that the primer-plus-stream
//! encoding cannot express.

use vstd::prelude::*;

verus! {

/// One digit of a continued-logarithm expansion of a value in (0,1).
///
/// A finite stream of these symbols, terminating at the constant one half,
/// denotes a rational; an infinite stream denotes an irrational limit.
#[derive(Clone, Copy, Debug, PartialEq, Eq, Structural)]
pub enum Reduction {
    /// The value was greater than zero and less than one half, and was doubled.
    Amplify,
    /// The value was greater than one half and less than one; it was
    /// reciprocated and then had one subtracted from itself.
    Uncover,
}

/// A fixed pre-transform that maps a canonical (0,1) stream onto the rest of
/// the real line.
///
/// An absent primer leaves the value in (0,1); `Turn` reciprocates it into
/// (1,∞); `Reflect` negates it into (−1,0); `Ground` negates the reciprocal
/// into (−∞,−1).
#[derive(Clone, Copy, Debug, PartialEq, Eq, Structural)]
pub enum Primer {
    /// The value was reciprocated.
    Turn,
    /// The value was negated.
    Reflect,
    /// The value was reciprocated and negated.
    Ground,
}

/// The values that the combination of an optional primer and a reduction
/// stream cannot represent: the boundaries of the five regions.
#[derive(Clone, Copy, Debug, PartialEq, Eq, Structural)]
pub enum Special {
    /// The value is minus one.
    NegOne,
    /// The value is zero.
    Zero,
    /// The value is one.
    PosOne,
}

} // verus!
