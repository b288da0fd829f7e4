//! The reduction strategies: the algorithms that fold input information into
//! output symbols.  Every stream owns exactly one of them at a time, as one
//! variant of a closed sum type; a strategy that can no longer act on its
//! own hands the stream a replacement variant.

pub mod ratio;
pub mod one;
pub mod homographic;
pub mod combine;
pub mod consume;
pub mod support;

use vstd::prelude::*;
use crate::protocol::Reduction;

verus! {

/// The closed set of reduction strategies.
pub enum Strategy {
    /// The base rational generator.
    Ratio(ratio::Ratio),
    /// The constant one half.
    One(one::One),
    /// The one-variable transform.
    Homographic(Box<homographic::Homographic>),
    /// The two-variable transform.
    Combine(Box<combine::Combine>),
}

/// What one attempt to pull from a strategy produced: a symbol (or
/// exhaustion), or a replacement strategy that the stream must install and
/// ask instead.
pub enum Step {
    /// A symbol was emitted, or the stream is exhausted.
    Emit(Option<Reduction>),
    /// The strategy hands off to a simpler one for the same value.
    Become(Strategy),
}

impl Strategy {
    /// Structural invariant: the strategy denotes a value strictly inside
    /// (0,1).
    pub open spec fn wf(self) -> bool
        decreases self,
    {
        match self {
            Strategy::Ratio(s) => s.wf(),
            Strategy::One(_) => true,
            Strategy::Homographic(h) => h.wf(),
            Strategy::Combine(cb) => cb.wf(),
        }
    }

    /// The denoted value of the strategy is given by the value model: its
    /// inner streams, if any, are in the model too.
    pub open spec fn modeled(self) -> bool
        decreases self,
    {
        match self {
            Strategy::Ratio(_) => true,
            Strategy::One(_) => true,
            Strategy::Homographic(h) => h.modeled_inner(),
            Strategy::Combine(cb) => cb.modeled_inner(),
        }
    }

    /// The strategy is one of the two base generators, which perform no
    /// coefficient arithmetic: a pull from such a stream cannot fail.
    pub open spec fn direct(self) -> bool {
        match self {
            Strategy::Ratio(_) => true,
            Strategy::One(_) => true,
            Strategy::Homographic(_) => false,
            Strategy::Combine(_) => false,
        }
    }

    /// Numerator of the denoted value, over a positive denominator.
    pub open spec fn vn(self) -> int
        decreases self,
    {
        match self {
            Strategy::Ratio(s) => s.vn(),
            Strategy::One(_) => 1,
            Strategy::Homographic(h) => h.vn(),
            Strategy::Combine(cb) => cb.vn(),
        }
    }

    /// Denominator of the denoted value; positive on well-formed
    /// strategies.
    pub open spec fn vd(self) -> int
        decreases self,
    {
        match self {
            Strategy::Ratio(s) => s.vd(),
            Strategy::One(_) => 2,
            Strategy::Homographic(h) => h.vd(),
            Strategy::Combine(cb) => cb.vd(),
        }
    }
}

/// Nesting depth of inner streams below a strategy.
pub open spec fn height(s: Strategy) -> nat
    decreases s,
{
    match s {
        Strategy::Ratio(_) => 0,
        Strategy::One(_) => 0,
        Strategy::Homographic(h) => h.height(),
        Strategy::Combine(cb) => cb.height(),
    }
}

/// How many hand-offs a strategy can still make: each replacement strictly
/// simplifies.
pub open spec fn rank(s: Strategy) -> nat {
    match s {
        Strategy::Ratio(_) => 0,
        Strategy::One(_) => 0,
        Strategy::Homographic(_) => 1,
        Strategy::Combine(_) => 2,
    }
}

/// A well-formed strategy denotes a value strictly between zero and one.
pub proof fn lemma_strategy_val(s: Strategy)
    requires
        s.wf(),
    ensures
        0 < s.vn() < s.vd(),
    decreases s,
{
    match s {
        Strategy::Ratio(r) => ratio::lemma_ratio_val(r),
        Strategy::One(_) => {},
        Strategy::Homographic(h) => homographic::lemma_homographic_val(*h),
        Strategy::Combine(cb) => combine::lemma_combine_val(*cb),
    }
}

} // verus!
