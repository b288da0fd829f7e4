//! The base strategy: the canonical binary continued-logarithm expansion of
//! a reduced fraction confined to the open interval (0,1).

use vstd::prelude::*;
use crate::protocol::{Reduction, Primer, Special};
use crate::rat::{step_rel, rat_eq, rat_lt};
use crate::Error;

verus! {

/// A reduced positive fraction strictly between zero and one.
pub struct Ratio {
    num: usize,
    den: usize,
}

impl Ratio {
    /// Structural invariant: the fraction lies strictly inside (0,1).
    pub closed spec fn wf(self) -> bool {
        0 < self.num < self.den
    }

    /// Numerator of the denoted value.
    pub closed spec fn vn(self) -> int {
        self.num as int
    }

    /// Denominator of the denoted value.
    pub closed spec fn vd(self) -> int {
        self.den as int
    }

    /// Pull the next reduction symbol: halve or reciprocate-and-subtract the
    /// fraction, or report exhaustion when it is exactly one half.
    pub fn egest(&mut self) -> (r: Option<Reduction>)
        requires
            old(self).wf(),
        ensures
            final(self).wf(),
            step_rel(r, old(self).vn(), old(self).vd(), final(self).vn(), final(self).vd()),
    {
        if self.num > self.den / 2 {
            let n0 = self.num;
            self.num = self.den - n0;
            self.den = n0;
            proof {
                assert(rat_eq(self.num as int, self.den as int,
                    old(self).vd() - old(self).vn(), old(self).vn()));
            }
            return Some(Reduction::Uncover);
        }
        if self.den % 2 == 0 {
            self.den = self.den / 2;
            if self.num == self.den {
                self.den = 2 * self.den;
                return None;
            }
            proof {
                let e = self.den as int;
                let n0 = old(self).vn();
                assert(n0 * (2 * e) == (2 * n0) * e) by (nonlinear_arith);
            }
            return Some(Reduction::Amplify);
        }
        self.num = 2 * self.num;
        return Some(Reduction::Amplify);
    }
}

/// A well-formed base strategy denotes a value strictly inside (0,1).
pub proof fn lemma_ratio_val(r: Ratio)
    requires
        r.wf(),
    ensures
        0 < r.vn() < r.vd(),
{
}

/// Classify the signed fraction `±num / den`: a boundary value, or a primer
/// naming its region together with the base strategy for the reduced
/// fraction folded into (0,1).  A zero denominator is an undefined fraction.
pub fn new(positive: bool, num: usize, den: usize) -> (r: Result<
    (Option<Special>, Option<Primer>, Option<Ratio>),
    Error,
>)
    ensures
        den == 0 ==> r == Err::<(Option<Special>, Option<Primer>, Option<Ratio>), Error>(
            Error::DivisionByZero,
        ),
        den != 0 ==> (match r {
            Ok((sp, pr, ra)) => {
                &&& (num == 0 ==> sp == Some(Special::Zero) && pr is None && ra is None)
                &&& (num == den ==> sp == Some(if positive { Special::PosOne } else { Special::NegOne })
                        && pr is None && ra is None)
                &&& (num != 0 && num != den ==> {
                    &&& sp is None
                    &&& ra is Some && ra.unwrap().wf()
                    &&& (num > den ==> pr == Some(if positive { Primer::Turn } else { Primer::Ground })
                            && ra.unwrap().vn() == den && ra.unwrap().vd() == num)
                    &&& (num < den ==> pr == (if positive { None } else { Some(Primer::Reflect) })
                            && ra.unwrap().vn() == num && ra.unwrap().vd() == den)
                })
            },
            Err(_) => false,
        }),
{
    if den == 0 {
        return Err(Error::DivisionByZero);
    }
    if num == 0 {
        return Ok((Some(Special::Zero), None, None));
    }
    if num == den {
        if positive {
            return Ok((Some(Special::PosOne), None, None));
        }
        return Ok((Some(Special::NegOne), None, None));
    }
    if num > den {
        return Ok((
            None,
            if positive { Some(Primer::Turn) } else { Some(Primer::Ground) },
            Some(Ratio { num: den, den: num }),
        ));
    }
    Ok((
        None,
        if positive { None } else { Some(Primer::Reflect) },
        Some(Ratio { num, den }),
    ))
}

/// Split a signed machine integer into its sign and magnitude.
fn sign_split(v: isize) -> (r: (bool, usize))
    ensures
        v >= 0 ==> r.0 == true && r.1 as int == v as int,
        v < 0 ==> r.0 == false && r.1 as int == -(v as int),
{
    if v >= 0 {
        (true, v as usize)
    } else {
        (false, ((-(v + 1)) as usize) + 1)
    }
}

/// As `new`, from two signed machine integers.
pub fn new_i(num: isize, den: isize) -> (r: Result<
    (Option<Special>, Option<Primer>, Option<Ratio>),
    Error,
>)
    ensures
        den == 0 ==> r == Err::<(Option<Special>, Option<Primer>, Option<Ratio>), Error>(
            Error::DivisionByZero,
        ),
        den != 0 ==> (match r {
            Ok((sp, pr, ra)) => {
                let pos = (num >= 0 && den >= 0) || (num < 0 && den < 0);
                let mn = if num >= 0 { num as int } else { -(num as int) };
                let md = if den >= 0 { den as int } else { -(den as int) };
                &&& (mn == 0 ==> sp == Some(Special::Zero) && pr is None && ra is None)
                &&& (mn == md ==> sp == Some(if pos { Special::PosOne } else { Special::NegOne })
                        && pr is None && ra is None)
                &&& (mn != 0 && mn != md ==> {
                    &&& sp is None
                    &&& ra is Some && ra.unwrap().wf()
                    &&& (mn > md ==> pr == Some(if pos { Primer::Turn } else { Primer::Ground })
                            && ra.unwrap().vn() == md && ra.unwrap().vd() == mn)
                    &&& (mn < md ==> pr == (if pos { None } else { Some(Primer::Reflect) })
                            && ra.unwrap().vn() == mn && ra.unwrap().vd() == md)
                })
            },
            Err(_) => false,
        }),
{
    let (np, nm) = sign_split(num);
    let (dp, dm) = sign_split(den);
    new(np == dp, nm, dm)
}

} // verus!
