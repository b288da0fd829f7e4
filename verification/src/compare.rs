//! Exact total-order comparison of two numbers, without forcing either to a
//! closed form: regions are compared first, and two streams in the same
//! region are compared digit by digit.

use vstd::prelude::*;
use std::cmp::Ordering;
use crate::protocol::{Reduction, Primer, Special};
use crate::rat::{rat_eq, rat_lt, cl_len, lemma_cl_len_step, lemma_rat_lt_congr};
use crate::{Clog, Number, Error, lemma_clog_val};

verus! {

/// The exact value of a boundary symbol.
pub open spec fn special_val(s: Special) -> int {
    match s {
        Special::NegOne => -1,
        Special::Zero => 0,
        Special::PosOne => 1,
    }
}

/// The exact ordering of two finite rationals over positive denominators.
pub open spec fn rat_ord(an: int, ad: int, bn: int, bd: int) -> Ordering {
    if rat_eq(an, ad, bn, bd) {
        Ordering::Equal
    } else if rat_lt(an, ad, bn, bd) {
        Ordering::Less
    } else {
        Ordering::Greater
    }
}

/// Law: the exact ordering is reflexive on equal values and antisymmetric:
/// exchanging the sides exchanges less and greater and keeps equality.
pub proof fn lemma_rat_ord_antisym(an: int, ad: int, bn: int, bd: int)
    requires
        ad > 0,
        bd > 0,
    ensures
        (rat_ord(an, ad, bn, bd) == Ordering::Equal) == rat_eq(an, ad, bn, bd),
        (rat_ord(an, ad, bn, bd) == Ordering::Less)
            == (rat_ord(bn, bd, an, ad) == Ordering::Greater),
        (rat_ord(an, ad, bn, bd) == Ordering::Greater)
            == (rat_ord(bn, bd, an, ad) == Ordering::Less),
        rat_eq(an, ad, an, ad),
{
}

/// The region facts that well-formedness gives each shape of number.
proof fn h_region(n: Number)
    requires
        n.wf(),
    ensures
        n.vd() > 0,
        n matches Number::Special(s) ==> n.vn() == special_val(s) && n.vd() == 1,
        n matches Number::Other(None, _) ==> 0 < n.vn() < n.vd(),
        n matches Number::Other(Some(Primer::Turn), _) ==> n.vn() > n.vd(),
        n matches Number::Other(Some(Primer::Reflect), _) ==> -n.vd() < n.vn() < 0,
        n matches Number::Other(Some(Primer::Ground), _) ==> n.vn() < -n.vd(),
{
    match n {
        Number::Special(_) => {},
        Number::Other(_, c) => {
            lemma_clog_val(c);
        },
    }
}

/// Reverse an ordering.
fn reverse(o: Ordering) -> (r: Ordering)
    ensures
        o == Ordering::Less ==> r == Ordering::Greater,
        o == Ordering::Greater ==> r == Ordering::Less,
        o == Ordering::Equal ==> r == Ordering::Equal,
{
    match o {
        Ordering::Less => Ordering::Greater,
        Ordering::Equal => Ordering::Equal,
        Ordering::Greater => Ordering::Less,
    }
}

/// Destructively compare two numbers; the result is the exact order of the
/// two denoted values on the real line.
pub fn compare(n1: Number, n2: Number) -> (r: Result<Ordering, Error>)
    requires
        n1.wf(),
        n2.wf(),
        n1.modeled(),
        n2.modeled(),
    ensures
        n1.direct() && n2.direct() ==> r is Ok,
        match r {
            Ok(o) => o == rat_ord(n1.vn(), n1.vd(), n2.vn(), n2.vd()),
            Err(e) => e == Error::CoefficientOverflow,
        },
{
    proof {
        h_region(n1);
        h_region(n2);
    }
    match n1 {
        Number::Special(s1) => match n2 {
            Number::Special(s2) => Ok(compare_specials(s1, s2)),
            Number::Other(p2, c2) => {
                proof {
                    lemma_clog_val(c2);
                }
                Ok(compare_hybrid(s1, p2, Ghost(c2.vn()), Ghost(c2.vd())))
            },
        },
        Number::Other(p1, c1) => match n2 {
            Number::Special(s2) => {
                proof {
                    lemma_clog_val(c1);
                }
                let o = compare_hybrid(s2, p1, Ghost(c1.vn()), Ghost(c1.vd()));
                Ok(reverse(o))
            },
            Number::Other(p2, c2) => compare_others(p1, c1, p2, c2),
        },
    }
}

/// Compare two boundary values: the fixed order minus one, zero, one.
fn compare_specials(s1: Special, s2: Special) -> (r: Ordering)
    ensures
        r == rat_ord(special_val(s1), 1, special_val(s2), 1),
{
    if s1 == s2 {
        return Ordering::Equal;
    }
    if s1 == Special::NegOne {
        return Ordering::Less;
    }
    if s2 == Special::NegOne {
        return Ordering::Greater;
    }
    if s1 == Special::Zero {
        return Ordering::Less;
    }
    Ordering::Greater
}

/// Compare a boundary value with a number known only by the region its
/// primer names; the regions partition the line, so no digit is needed.
fn compare_hybrid(s: Special, p: Option<Primer>, Ghost(cn): Ghost<int>, Ghost(cd): Ghost<int>) -> (r: Ordering)
    requires
        0 < cn < cd,
    ensures
        ({
            let vn = match p {
                None => cn,
                Some(Primer::Turn) => cd,
                Some(Primer::Reflect) => -cn,
                Some(Primer::Ground) => -cd,
            };
            let vd = match p {
                None => cd,
                Some(Primer::Turn) => cn,
                Some(Primer::Reflect) => cd,
                Some(Primer::Ground) => cn,
            };
            r == rat_ord(special_val(s), 1, vn, vd)
        }),
{
    if let Some(Primer::Ground) = p {
        return Ordering::Greater;
    }
    if s == Special::NegOne {
        return Ordering::Less;
    }
    if let Some(Primer::Reflect) = p {
        return Ordering::Greater;
    }
    if s == Special::Zero {
        return Ordering::Less;
    }
    if let None = p {
        return Ordering::Greater;
    }
    Ordering::Less
}

/// Compare two primed streams: the primers decide unless they agree, and
/// then the streams are compared digit by digit with the ordering sense the
/// shared primer gives.
fn compare_others(p1: Option<Primer>, c1: Clog, p2: Option<Primer>, c2: Clog) -> (r: Result<
    Ordering,
    Error,
>)
    requires
        c1.wf(),
        c2.wf(),
        c1.modeled(),
        c2.modeled(),
    ensures
        c1.direct() && c2.direct() ==> r is Ok,
        match r {
            Ok(o) => o == rat_ord(
                Number::Other(p1, c1).vn(), Number::Other(p1, c1).vd(),
                Number::Other(p2, c2).vn(), Number::Other(p2, c2).vd(),
            ),
            Err(e) => e == Error::CoefficientOverflow,
        },
{
    proof {
        lemma_clog_val(c1);
        lemma_clog_val(c2);
        h_region(Number::Other(p1, c1));
        h_region(Number::Other(p2, c2));
    }
    let ghost vn1 = Number::Other(p1, c1).vn();
    let ghost vd1 = Number::Other(p1, c1).vd();
    let ghost vn2 = Number::Other(p2, c2).vn();
    let ghost vd2 = Number::Other(p2, c2).vd();
    let same = match (&p1, &p2) {
        (None, None) => true,
        (Some(Primer::Turn), Some(Primer::Turn)) => true,
        (Some(Primer::Reflect), Some(Primer::Reflect)) => true,
        (Some(Primer::Ground), Some(Primer::Ground)) => true,
        _ => false,
    };
    if !same {
        let o = compare_primers(&p1, &p2);
        proof {
            h_sep(vn1, vd1, vn2, vd2);
        }
        return Ok(o);
    }
    let polarity = match &p1 {
        Some(Primer::Reflect) => false,
        Some(Primer::Turn) => false,
        _ => true,
    };
    let o = match compare_clogs(c1, c2, polarity) {
        Ok(o) => o,
        Err(e) => {
            return Err(e);
        },
    };
    proof {
        h_same_primer(p1, c1.vn(), c1.vd(), c2.vn(), c2.vd());
    }
    Ok(o)
}

/// Strict separation of distinct regions: any value in a lower region is
/// below any value in a higher one.
proof fn h_sep(vn1: int, vd1: int, vn2: int, vd2: int)
    requires
        vd1 > 0,
        vd2 > 0,
    ensures
        vn1 < -vd1 && vn2 >= -vd2 ==> rat_lt(vn1, vd1, vn2, vd2),
        vn1 <= 0 && vn2 > 0 ==> rat_lt(vn1, vd1, vn2, vd2),
        vn1 < vd1 && vn2 >= vd2 ==> rat_lt(vn1, vd1, vn2, vd2),
        vn1 >= -vd1 && vn2 < -vd2 ==> rat_lt(vn2, vd2, vn1, vd1),
        vn1 > 0 && vn2 <= 0 ==> rat_lt(vn2, vd2, vn1, vd1),
        vn1 >= vd1 && vn2 < vd2 ==> rat_lt(vn2, vd2, vn1, vd1),
{
    assert((vn1 < -vd1 && vn2 >= -vd2 ==> vn1 * vd2 < vn2 * vd1)
        && (vn1 <= 0 && vn2 > 0 ==> vn1 * vd2 < vn2 * vd1)
        && (vn1 < vd1 && vn2 >= vd2 ==> vn1 * vd2 < vn2 * vd1)
        && (vn1 >= -vd1 && vn2 < -vd2 ==> vn2 * vd1 < vn1 * vd2)
        && (vn1 > 0 && vn2 <= 0 ==> vn2 * vd1 < vn1 * vd2)
        && (vn1 >= vd1 && vn2 < vd2 ==> vn2 * vd1 < vn1 * vd2)) by (nonlinear_arith)
        requires vd1 > 0 && vd2 > 0;
}

/// With the same primer on both sides, the order of the numbers follows
/// from the order of the streams, reversed for the two order-reversing
/// primers.
proof fn h_same_primer(p: Option<Primer>, an: int, ad: int, bn: int, bd: int)
    requires
        0 < an < ad,
        0 < bn < bd,
    ensures
        ({
            let vn1 = match p { None => an, Some(Primer::Turn) => ad, Some(Primer::Reflect) => -an, Some(Primer::Ground) => -ad };
            let vd1 = match p { None => ad, Some(Primer::Turn) => an, Some(Primer::Reflect) => ad, Some(Primer::Ground) => an };
            let vn2 = match p { None => bn, Some(Primer::Turn) => bd, Some(Primer::Reflect) => -bn, Some(Primer::Ground) => -bd };
            let vd2 = match p { None => bd, Some(Primer::Turn) => bn, Some(Primer::Reflect) => bd, Some(Primer::Ground) => bn };
            &&& (rat_eq(vn1, vd1, vn2, vd2) == rat_eq(an, ad, bn, bd))
            &&& ((p is None || p == Some(Primer::Ground))
                ==> rat_lt(vn1, vd1, vn2, vd2) == rat_lt(an, ad, bn, bd))
            &&& ((p == Some(Primer::Turn) || p == Some(Primer::Reflect))
                ==> rat_lt(vn1, vd1, vn2, vd2) == rat_lt(bn, bd, an, ad))
        }),
{
    assert((an * bd == bn * ad) == (ad * bn == bd * an)
        && ((-an) * bd == (-bn) * ad) == (an * bd == bn * ad)
        && ((-ad) * bn == (-bd) * an) == (ad * bn == bd * an)
        && ((ad * bn < bd * an) == (bn * ad < an * bd))
        && (((-an) * bd < (-bn) * ad) == (bn * ad < an * bd))
        && (((-ad) * bn < (-bd) * an) == (ad * bn > bd * an))) by (nonlinear_arith);
}

/// Compare the regions the primers name, in the fixed order of the regions
/// on the line.
fn compare_primers(p1: &Option<Primer>, p2: &Option<Primer>) -> (r: Ordering)
    ensures
        ({
            let k1: int = match p1 { Some(Primer::Ground) => 0, Some(Primer::Reflect) => 1, None => 2, Some(Primer::Turn) => 3 };
            let k2: int = match p2 { Some(Primer::Ground) => 0, Some(Primer::Reflect) => 1, None => 2, Some(Primer::Turn) => 3 };
            r == (if k1 == k2 { Ordering::Equal } else if k1 < k2 { Ordering::Less } else { Ordering::Greater })
        }),
{
    let same = match (p1, p2) {
        (None, None) => true,
        (Some(Primer::Turn), Some(Primer::Turn)) => true,
        (Some(Primer::Reflect), Some(Primer::Reflect)) => true,
        (Some(Primer::Ground), Some(Primer::Ground)) => true,
        _ => false,
    };
    if same {
        return Ordering::Equal;
    }
    if let Some(Primer::Ground) = p1 {
        return Ordering::Less;
    }
    if let Some(Primer::Ground) = p2 {
        return Ordering::Greater;
    }
    if let Some(Primer::Reflect) = p1 {
        return Ordering::Less;
    }
    if let Some(Primer::Reflect) = p2 {
        return Ordering::Greater;
    }
    if let None = p1 {
        return Ordering::Less;
    }
    Ordering::Greater
}

/// Compare two streams digit by digit.  While the digits agree the values
/// stay equal-or-ordered the same way; the first differing digit decides,
/// with the sense accumulated from every reciprocating step observed.
#[verifier::loop_isolation(false)]
fn compare_clogs(c1: Clog, c2: Clog, polarity: bool) -> (r: Result<Ordering, Error>)
    requires
        c1.wf(),
        c2.wf(),
        c1.modeled(),
        c2.modeled(),
    ensures
        c1.direct() && c2.direct() ==> r is Ok,
        match r {
            Ok(o) => {
                &&& (o == Ordering::Equal) == rat_eq(c1.vn(), c1.vd(), c2.vn(), c2.vd())
                &&& (polarity ==> o == rat_ord(c1.vn(), c1.vd(), c2.vn(), c2.vd()))
                &&& (!polarity ==> o == rat_ord(c2.vn(), c2.vd(), c1.vn(), c1.vd()))
            },
            Err(e) => e == Error::CoefficientOverflow,
        },
{
    let ghost on1 = c1.vn();
    let ghost od1 = c1.vd();
    let ghost on2 = c2.vn();
    let ghost od2 = c2.vd();
    let mut x1 = c1;
    let mut x2 = c2;
    let mut pol = polarity;
    loop
        invariant
            x1.wf(),
            x2.wf(),
            x1.modeled(),
            x2.modeled(),
            c1.direct() ==> x1.direct(),
            c2.direct() ==> x2.direct(),
            rat_eq(x1.vn(), x1.vd(), x2.vn(), x2.vd()) == rat_eq(on1, od1, on2, od2),
            (pol == polarity) ==> rat_lt(x1.vn(), x1.vd(), x2.vn(), x2.vd()) == rat_lt(on1, od1, on2, od2),
            (pol != polarity) ==> rat_lt(x2.vn(), x2.vd(), x1.vn(), x1.vd()) == rat_lt(on1, od1, on2, od2),
        decreases cl_len(x1.vn(), x1.vd()),
    {
        proof {
            lemma_clog_val(x1);
            lemma_clog_val(x2);
        }
        let ghost pn1 = x1.vn();
        let ghost pd1 = x1.vd();
        let ghost pn2 = x2.vn();
        let ghost pd2 = x2.vd();
        let e1 = match x1.egest() {
            Ok(s) => s,
            Err(e) => {
                return Err(e);
            },
        };
        let e2 = match x2.egest() {
            Ok(s) => s,
            Err(e) => {
                return Err(e);
            },
        };
        proof {
            lemma_clog_val(x1);
            lemma_clog_val(x2);
        }
        match (e1, e2) {
            (None, None) => {
                proof {
                    h_both_half(pn1, pd1, pn2, pd2);
                }
                return Ok(Ordering::Equal);
            },
            (Some(Reduction::Amplify), Some(Reduction::Amplify)) => {
                proof {
                    h_cong_amp(pn1, pd1, pn2, pd2, x1.vn(), x1.vd(), x2.vn(), x2.vd());
                    lemma_cl_len_step(e1, pn1, pd1, x1.vn(), x1.vd());
                }
            },
            (Some(Reduction::Uncover), Some(Reduction::Uncover)) => {
                proof {
                    h_cong_unc(pn1, pd1, pn2, pd2, x1.vn(), x1.vd(), x2.vn(), x2.vd());
                    lemma_cl_len_step(e1, pn1, pd1, x1.vn(), x1.vd());
                }
                pol = !pol;
            },
            _ => {
                let answer = match e1 {
                    None => match e2 {
                        Some(Reduction::Amplify) => Ordering::Greater,
                        _ => Ordering::Less,
                    },
                    Some(Reduction::Amplify) => Ordering::Less,
                    Some(Reduction::Uncover) => Ordering::Greater,
                };
                proof {
                    h_diverge(pn1, pd1, pn2, pd2);
                    assert(!rat_eq(pn1, pd1, pn2, pd2));
                    assert(!rat_eq(on1, od1, on2, od2));
                    assert(answer == Ordering::Less ==> rat_lt(pn1, pd1, pn2, pd2));
                    assert(answer == Ordering::Greater ==> rat_lt(pn2, pd2, pn1, pd1));
                    assert(answer != Ordering::Equal);
                }
                if pol {
                    return Ok(answer);
                }
                return Ok(reverse(answer));
            },
        }
    }
}

/// Two exhausted streams both denote one half exactly.
proof fn h_both_half(an: int, ad: int, bn: int, bd: int)
    requires
        ad > 0,
        bd > 0,
        rat_eq(an, ad, 1, 2),
        rat_eq(bn, bd, 1, 2),
    ensures
        rat_eq(an, ad, bn, bd),
        !rat_lt(an, ad, bn, bd),
        !rat_lt(bn, bd, an, ad),
{
    assert(an * bd == bn * ad && !(an * bd < bn * ad) && !(bn * ad < an * bd)) by (nonlinear_arith)
        requires ad > 0 && bd > 0 && an * 2 == ad && bn * 2 == bd;
}

/// Halving both sides keeps equality and order.
proof fn h_cong_amp(an: int, ad: int, bn: int, bd: int, xn: int, xd: int, yn: int, yd: int)
    requires
        ad > 0, bd > 0, xd > 0, yd > 0,
        rat_eq(xn, xd, 2 * an, ad),
        rat_eq(yn, yd, 2 * bn, bd),
    ensures
        rat_eq(xn, xd, yn, yd) == rat_eq(an, ad, bn, bd),
        rat_lt(xn, xd, yn, yd) == rat_lt(an, ad, bn, bd),
        rat_lt(yn, yd, xn, xd) == rat_lt(bn, bd, an, ad),
{
    assert(((2 * an) * bd == (2 * bn) * ad) == (an * bd == bn * ad)
        && ((2 * an) * bd < (2 * bn) * ad) == (an * bd < bn * ad)
        && ((2 * bn) * ad < (2 * an) * bd) == (bn * ad < an * bd)) by (nonlinear_arith);
    lemma_rat_lt_congr(xn, xd, yn, yd, 2 * an, ad, 2 * bn, bd);
    lemma_rat_lt_congr(yn, yd, xn, xd, 2 * bn, bd, 2 * an, ad);
}

/// Reciprocating and subtracting one on both sides keeps equality and
/// reverses order.
proof fn h_cong_unc(an: int, ad: int, bn: int, bd: int, xn: int, xd: int, yn: int, yd: int)
    requires
        0 < an < ad, 0 < bn < bd, xd > 0, yd > 0,
        rat_lt(1, 2, an, ad),
        rat_lt(1, 2, bn, bd),
        rat_eq(xn, xd, ad - an, an),
        rat_eq(yn, yd, bd - bn, bn),
    ensures
        rat_eq(xn, xd, yn, yd) == rat_eq(an, ad, bn, bd),
        rat_lt(xn, xd, yn, yd) == rat_lt(bn, bd, an, ad),
        rat_lt(yn, yd, xn, xd) == rat_lt(an, ad, bn, bd),
{
    assert(((ad - an) * bn == (bd - bn) * an) == (an * bd == bn * ad)
        && ((ad - an) * bn < (bd - bn) * an) == (bn * ad < an * bd)
        && ((bd - bn) * an < (ad - an) * bn) == (an * bd < bn * ad)) by (nonlinear_arith)
        requires 0 < an < ad && 0 < bn < bd;
    lemma_rat_lt_congr(xn, xd, yn, yd, ad - an, an, bd - bn, bn);
    lemma_rat_lt_congr(yn, yd, xn, xd, bd - bn, bn, ad - an, an);
}

/// At the first divergence the digits place the two values on opposite
/// sides of one half.
proof fn h_diverge(an: int, ad: int, bn: int, bd: int)
    requires
        ad > 0,
        bd > 0,
    ensures
        rat_lt(an, ad, 1, 2) && rat_eq(bn, bd, 1, 2) ==> rat_lt(an, ad, bn, bd) && !rat_eq(an, ad, bn, bd) && !rat_lt(bn, bd, an, ad),
        rat_lt(an, ad, 1, 2) && rat_lt(1, 2, bn, bd) ==> rat_lt(an, ad, bn, bd) && !rat_eq(an, ad, bn, bd) && !rat_lt(bn, bd, an, ad),
        rat_eq(an, ad, 1, 2) && rat_lt(bn, bd, 1, 2) ==> rat_lt(bn, bd, an, ad) && !rat_eq(an, ad, bn, bd) && !rat_lt(an, ad, bn, bd),
        rat_eq(an, ad, 1, 2) && rat_lt(1, 2, bn, bd) ==> rat_lt(an, ad, bn, bd) && !rat_eq(an, ad, bn, bd) && !rat_lt(bn, bd, an, ad),
        rat_lt(1, 2, an, ad) && rat_lt(bn, bd, 1, 2) ==> rat_lt(bn, bd, an, ad) && !rat_eq(an, ad, bn, bd) && !rat_lt(an, ad, bn, bd),
        rat_lt(1, 2, an, ad) && rat_eq(bn, bd, 1, 2) ==> rat_lt(bn, bd, an, ad) && !rat_eq(an, ad, bn, bd) && !rat_lt(an, ad, bn, bd),
{
    assert((an * 2 < ad && bn * 2 == bd ==> an * bd < bn * ad)
        && (an * 2 < ad && ad < an * 2 ==> false)
        && (an * 2 < ad && bd < bn * 2 ==> an * bd < bn * ad)
        && (an * 2 == ad && bd < bn * 2 ==> an * bd < bn * ad)
        && (an * 2 == ad && bn * 2 < bd ==> bn * ad < an * bd)
        && (ad < an * 2 && bn * 2 < bd ==> bn * ad < an * bd)
        && (ad < an * 2 && bn * 2 == bd ==> bn * ad < an * bd)) by (nonlinear_arith)
        requires ad > 0 && bd > 0;
    assert(!(an * bd < bn * ad) || !(bn * ad < an * bd));
    assert(an * bd < bn * ad ==> an * bd != bn * ad);
}

} // verus!
