//! Exact arithmetic over the real line in continued-logarithm representation.
//!
//! A value is a lazily generated stream of reduction symbols rather than a
//! fixed-width approximation.  Values are built from integer ratios, from
//! one-variable (homographic) transforms and from two-variable (bilinear)
//! transforms of existing values, and any two values can be compared exactly
//! without materializing an expansion.

use vstd::prelude::*;

pub mod protocol;
pub mod rat;
pub mod strategy;
pub mod compare;

use crate::protocol::{Reduction, Primer, Special};
use crate::rat::{step_rel, rat_eq};
use crate::strategy::{Strategy, Step};
use std::cmp::Ordering;

verus! {

/// The two fatal error conditions: an undefined fraction, and a coefficient
/// update that leaves the fixed-width integer range.  Neither is recovered
/// internally.
#[derive(Clone, Copy, Debug, PartialEq, Eq, Structural)]
pub enum Error {
    /// A denominator of zero was met where a finite value was required.
    DivisionByZero,
    /// A checked coefficient operation exceeded the machine integer range.
    CoefficientOverflow,
    /// A consistency violation inside the engine: a defect of the engine
    /// itself, never a condition of the input.
    Internal,
}

/// A number strictly between zero and one, with unbounded precision: a
/// stream of reduction symbols produced on demand by its owned strategy.
pub struct Clog {
    pub(crate) strategy: Strategy,
}

impl Clog {
    /// Structural invariant of the owned strategy.
    pub closed spec fn wf(self) -> bool
        decreases self,
    {
        self.strategy.wf()
    }

    /// Numerator of the denoted value, over a positive denominator.
    pub closed spec fn vn(self) -> int
        decreases self,
    {
        self.strategy.vn()
    }

    /// Denominator of the denoted value; positive when well-formed.
    pub closed spec fn vd(self) -> int
        decreases self,
    {
        self.strategy.vd()
    }

    /// The stream is generated directly by the base vocabulary, so the value
    /// model speaks for it.
    pub closed spec fn modeled(self) -> bool
        decreases self,
    {
        self.strategy.modeled()
    }

    /// The stream's strategy is a base generator: pulling cannot fail.
    pub closed spec fn direct(self) -> bool
        decreases self,
    {
        self.strategy.direct()
    }

    /// Nesting depth of inner streams below this one.
    pub closed spec fn height(self) -> nat
        decreases self,
    {
        strategy::height(self.strategy)
    }

    /// Wrap a strategy as a stream.
    pub(crate) fn from_strategy(s: Strategy) -> (r: Clog)
        ensures
            r == (Clog { strategy: s }),
    {
        Clog { strategy: s }
    }

    /// Destructively extract the next reduction symbol, replacing the owned
    /// strategy in place when it hands off.  No symbol means the remaining
    /// value is exactly one half, now and on every later pull.
    #[verifier::loop_isolation(false)]
    pub fn egest(&mut self) -> (r: Result<Option<Reduction>, Error>)
        requires
            old(self).wf(),
            old(self).modeled(),
        ensures
            old(self).direct() ==> r is Ok && final(self).direct(),
            match r {
                Ok(s) => final(self).wf() && final(self).modeled()
                    && final(self).height() <= old(self).height()
                    && step_rel(s, old(self).vn(), old(self).vd(), final(self).vn(), final(self).vd()),
                Err(e) => e == Error::CoefficientOverflow,
            },
        decreases old(self).height(), 9nat,
    {
        proof {
            lemma_clog_val(*old(self));
        }
        loop
            invariant
                self.wf(),
                self.modeled(),
                old(self).direct() ==> self.direct(),
                rat_eq(self.vn(), self.vd(), old(self).vn(), old(self).vd()),
                self.height() <= old(self).height(),
            decreases strategy::rank(self.strategy),
        {
            proof {
                lemma_clog_val(*self);
            }
            let ghost cvn = self.vn();
            let ghost cvd = self.vd();
            let step: Result<Step, Error> = match &mut self.strategy {
                Strategy::Ratio(s) => Ok(Step::Emit(s.egest())),
                Strategy::One(s) => Ok(Step::Emit(s.egest())),
                Strategy::Homographic(h) => h.egest(),
                Strategy::Combine(cb) => cb.egest(),
            };
            match step {
                Ok(Step::Emit(sym)) => {
                    proof {
                        lemma_clog_val(*self);
                        rat::lemma_step_congr(sym, cvn, cvd, old(self).vn(), old(self).vd(),
                            self.vn(), self.vd());
                    }
                    return Ok(sym);
                },
                Ok(Step::Become(next)) => {
                    proof {
                        strategy::lemma_strategy_val(next);
                        rat::lemma_rat_eq_trans(next.vn(), next.vd(), cvn, cvd,
                            old(self).vn(), old(self).vd());
                    }
                    self.strategy = next;
                },
                Err(e) => {
                    return Err(e);
                },
            }
        }
    }
}

/// A finite number with unbounded precision: one of the three boundary
/// values, or a stream in (0,1) behind an optional primer that places it in
/// its region of the real line.
pub enum Number {
    /// One of the boundary values minus one, zero, one.
    Special(Special),
    /// A primer (absent for the region (0,1) itself) over a stream.
    Other(Option<Primer>, Clog),
}

impl Number {
    /// Structural invariant of the underlying stream, if any.
    pub open spec fn wf(self) -> bool {
        match self {
            Number::Special(_) => true,
            Number::Other(_, c) => c.wf(),
        }
    }

    /// Numerator of the denoted value, over a positive denominator.
    pub open spec fn vn(self) -> int {
        match self {
            Number::Special(Special::NegOne) => -1,
            Number::Special(Special::Zero) => 0,
            Number::Special(Special::PosOne) => 1,
            Number::Other(None, c) => c.vn(),
            Number::Other(Some(Primer::Turn), c) => c.vd(),
            Number::Other(Some(Primer::Reflect), c) => -c.vn(),
            Number::Other(Some(Primer::Ground), c) => -c.vd(),
        }
    }

    /// Denominator of the denoted value; positive when well-formed.
    pub open spec fn vd(self) -> int {
        match self {
            Number::Special(_) => 1,
            Number::Other(None, c) => c.vd(),
            Number::Other(Some(Primer::Turn), c) => c.vn(),
            Number::Other(Some(Primer::Reflect), c) => c.vd(),
            Number::Other(Some(Primer::Ground), c) => c.vn(),
        }
    }

    /// Unwrap the boundary value.
    pub fn unwrap_special(self) -> (r: Special)
        requires
            self is Special,
        ensures
            self == Number::Special(r),
    {
        match self {
            Number::Special(special) => special,
            Number::Other(p, c) => {
                proof {
                    assert(false);
                }
                Special::Zero
            },
        }
    }

    /// Unwrap the primer and stream.
    pub fn unwrap_other(self) -> (r: (Option<Primer>, Clog))
        requires
            self is Other,
        ensures
            self == Number::Other(r.0, r.1),
    {
        match self {
            Number::Other(primer, clog) => (primer, clog),
            Number::Special(s) => {
                proof {
                    assert(false);
                }
                (None, Clog::from_strategy(Strategy::One(strategy::one::new())))
            },
        }
    }

    /// Hand-off rank of the stream's strategy, if any.
    pub closed spec fn strategy_rank(self) -> nat {
        match self {
            Number::Special(_) => 0,
            Number::Other(_, c) => strategy::rank(c.strategy),
        }
    }

    /// Nesting depth of streams below this number.
    pub open spec fn height(self) -> nat {
        match self {
            Number::Special(_) => 0,
            Number::Other(_, c) => c.height() + 1,
        }
    }

    /// The number's stream, if any, is generated directly by the base
    /// vocabulary, so the value model speaks for it.
    pub open spec fn modeled(self) -> bool {
        match self {
            Number::Special(_) => true,
            Number::Other(_, c) => c.modeled(),
        }
    }

    /// The number's stream, if any, is a base generator: comparing and
    /// draining cannot fail.
    pub open spec fn direct(self) -> bool {
        match self {
            Number::Special(_) => true,
            Number::Other(_, c) => c.direct(),
        }
    }

    /// Construct the number `(nx·x + n) / (dx·x + d)` over an existing
    /// number `x`: the lazy one-variable transform.
    pub fn homographic(x: Number, nx: isize, n: isize, dx: isize, d: isize) -> (r: Result<
        Number,
        Error,
    >)
        requires
            x.wf(),
            x.modeled(),
        ensures
            ({
                let hn = rat::av(nx as int, n as int, x.vn(), x.vd());
                let hd = rat::av(dx as int, d as int, x.vn(), x.vd());
                &&& (nx == 0 && dx == 0 && d != 0 ==> r is Ok)
                &&& (x is Special && hd != 0
                        && isize::MIN as int <= hn <= isize::MAX as int
                        && isize::MIN as int <= hd <= isize::MAX as int ==> r is Ok)
                &&& (hn == 0 && hd == 0 ==> r is Err)
                &&& (x is Special && hn == 0 && hd == 0
                        ==> r == Err::<Number, Error>(Error::DivisionByZero))
                &&& match r {
                    Ok(v) => v.wf() && v.modeled() && v.vd() > 0 && hd != 0
                        && v.vn() * hd == hn * v.vd(),
                    Err(e) => (e == Error::DivisionByZero ==> hd == 0)
                        && (e is DivisionByZero || e is CoefficientOverflow),
                }
            }),
    {
        strategy::homographic::new(x, nx, n, dx, d)
    }

    /// Destructively compare two numbers; the result is the exact order of
    /// the two denoted values on the real line.
    pub fn compare(n1: Number, n2: Number) -> (r: Result<Ordering, Error>)
        requires
            n1.wf(),
            n2.wf(),
            n1.modeled(),
            n2.modeled(),
        ensures
            n1.direct() && n2.direct() ==> r is Ok,
            match r {
                Ok(o) => o == crate::compare::rat_ord(n1.vn(), n1.vd(), n2.vn(), n2.vd()),
                Err(e) => e == Error::CoefficientOverflow,
            },
    {
        crate::compare::compare(n1, n2)
    }

    /// Construct the number
    /// `(nxy·xy + nx·x + ny·y + n) / (dxy·xy + dx·x + dy·y + d)` over two
    /// existing numbers: the lazy two-variable transform.
    pub fn combine(
        x: Number, y: Number,
        nxy: isize, nx: isize, ny: isize, n: isize,
        dxy: isize, dx: isize, dy: isize, d: isize,
    ) -> (r: Result<Number, Error>)
        requires
            x.wf(), y.wf(),
            x.modeled(), y.modeled(),
        ensures
            ({
                let bn = strategy::combine::bil(nxy as int, nx as int, ny as int, n as int,
                    x.vn(), x.vd(), y.vn(), y.vd());
                let bd = strategy::combine::bil(dxy as int, dx as int, dy as int, d as int,
                    x.vn(), x.vd(), y.vn(), y.vd());
                match r {
                    Ok(v) => v.wf() && v.modeled() && v.vd() > 0 && v.vn() * bd == bn * v.vd(),
                    Err(e) => (e is DivisionByZero || e is CoefficientOverflow)
                        && (e == Error::DivisionByZero ==> bd == 0),
                }
            }),
    {
        strategy::combine::new(x, y, nxy, nx, ny, n, dxy, dx, dy, d)
    }

    /// Transfer information from a number into one-variable transform
    /// coefficients: drain its stream until it exhausts or the coefficients
    /// approach the integer range.  The returned coefficients, applied to
    /// the residual number (or to one half when there is none), denote
    /// exactly the input's value; on a base-generated input the drain
    /// cannot fail.
    pub fn consume(x: Number) -> (r: Result<
        (Option<Number>, isize, isize, isize, isize),
        Error,
    >)
        requires
            x.wf(),
            x.modeled(),
        ensures
            x.direct() ==> r is Ok,
            match r {
                Ok((res, nx, n, dx, d)) => {
                    let rn = match res { Some(v) => v.vn(), None => 1int };
                    let rd = match res { Some(v) => v.vd(), None => 2int };
                    &&& (match res {
                        Some(v) => v.wf() && v.modeled() && v is Other,
                        None => true,
                    })
                    &&& rat::scaled(
                        rat::av(nx as int, n as int, rn, rd),
                        rat::av(dx as int, d as int, rn, rd),
                        x.vn(), x.vd(),
                    )
                },
                Err(_) => true,
            },
    {
        match x {
            Number::Special(s) => {
                proof {
                    h_zero_cross(1, 2);
                }
                match s {
                    Special::NegOne => Ok((None, 0, -1, 0, 1)),
                    Special::Zero => Ok((None, 0, 0, 0, 1)),
                    Special::PosOne => Ok((None, 0, 1, 0, 1)),
                }
            },
            Number::Other(po, c) => {
                proof {
                    lemma_clog_val(c);
                    h_zero_cross(c.vn(), c.vd());
                    h_zero_cross(c.vd(), c.vn());
                }
                let (nx, n, dx, d): (isize, isize, isize, isize) = match po {
                    Some(Primer::Turn) => (0, 1, 1, 0),
                    Some(Primer::Reflect) => (-1, 0, 0, 1),
                    Some(Primer::Ground) => (0, -1, 1, 0),
                    None => (1, 0, 0, 1),
                };
                let drained = strategy::consume::Consume::new(c, nx, n, dx, d);
                match drained.consume() {
                    Ok((res, nx, n, dx, d)) => {
                        Ok((match res { Some(cc) => Some(Number::Other(None, cc)), None => None }, nx, n, dx, d))
                    },
                    Err(e) => Err(e),
                }
            },
        }
    }

    /// Construct a number from the ratio of two signed machine integers.
    /// The result denotes exactly `num / den`; a zero denominator is
    /// rejected as an undefined fraction.
    pub fn ratio(num: isize, den: isize) -> (r: Result<Number, Error>)
        ensures
            match r {
                Ok(v) => den != 0 && v.wf() && v.modeled() && v.direct()
                    && rat_eq(v.vn(), v.vd(), num as int, den as int),
                Err(e) => den == 0 && e == Error::DivisionByZero,
            },
    {
        let r = Number::ratio_u(
            (num >= 0 && den >= 0) || (num < 0 && den < 0),
            magnitude(num),
            magnitude(den),
        );
        proof {
            if den != 0 {
                let v = r.unwrap();
                let sn = if (num >= 0 && den >= 0) || (num < 0 && den < 0) {
                    magnitude_spec(num)
                } else {
                    -magnitude_spec(num)
                };
                let sd = magnitude_spec(den);
                assert(v.vn() * sd == sn * v.vd());
                if den >= 0 {
                    assert(v.vn() * (den as int) == (num as int) * v.vd());
                } else {
                    assert(sd == -(den as int));
                    assert(sn == -(num as int));
                    assert(v.vn() * (-(den as int)) == (-(num as int)) * v.vd()
                        ==> v.vn() * (den as int) == (num as int) * v.vd()) by (nonlinear_arith);
                }
            }
        }
        r
    }

    /// Construct a number from a sign and the ratio of two unsigned machine
    /// integers.  The result denotes exactly `±num / den`.
    pub fn ratio_u(positive: bool, num: usize, den: usize) -> (r: Result<Number, Error>)
        ensures
            match r {
                Ok(v) => den != 0 && v.wf() && v.modeled() && v.direct()
                    && rat_eq(v.vn(), v.vd(),
                        if positive { num as int } else { -(num as int) }, den as int),
                Err(e) => den == 0 && e == Error::DivisionByZero,
            },
    {
        let (special, primer, ra) = match strategy::ratio::new(positive, num, den) {
            Ok(t) => t,
            Err(e) => {
                return Err(e);
            },
        };
        if let Some(fixed) = special {
            proof {
                h_zero_cross(num as int, den as int);
            }
            return Ok(Number::Special(fixed));
        }
        let ra = match ra {
            Some(ra) => ra,
            None => {
                proof {
                    assert(false);
                }
                return Err(Error::DivisionByZero);
            },
        };
        Ok(Number::Other(primer, Clog::from_strategy(Strategy::Ratio(ra))))
    }
}

/// A well-formed stream denotes a value strictly between zero and one.
pub proof fn lemma_clog_val(c: Clog)
    requires
        c.wf(),
    ensures
        0 < c.vn() < c.vd(),
    decreases c,
{
    strategy::lemma_strategy_val(c.strategy);
}

/// The magnitude of a signed machine integer, as the spec sees it.
pub open spec fn magnitude_spec(v: isize) -> int {
    if v >= 0 { v as int } else { -(v as int) }
}

/// The magnitude of a signed machine integer, exact also at the smallest
/// value.
fn magnitude(v: isize) -> (r: usize)
    ensures
        r as int == magnitude_spec(v),
{
    if v >= 0 {
        v as usize
    } else {
        ((-(v + 1)) as usize) + 1
    }
}

proof fn h_zero_cross(a: int, b: int)
    ensures
        0 * b == 0 && a * 1 == a && 0 * 1 == 0 && 1 * b == b && (-1) * b == -b
            && a * (-1) == -a,
{
    assert(0 * b == 0 && a * 1 == a && 0 * 1 == 0 && 1 * b == b && (-1) * b == -b
        && a * (-1) == -a) by (nonlinear_arith);
}

/// A stream's nesting depth is that of the strategy it owns.
pub(crate) proof fn lemma_clog_height(c: Clog)
    ensures
        c.height() == strategy::height(c.strategy),
{
}

/// A stream-backed number's hand-off rank is that of its strategy.
pub(crate) proof fn lemma_strategy_rank(p: Option<protocol::Primer>, c: Clog)
    ensures
        Number::Other(p, c).strategy_rank() == strategy::rank(c.strategy),
{
}

} // verus!
