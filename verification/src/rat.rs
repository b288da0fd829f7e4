//! The mathematical model: exact rational arithmetic over integer pairs.
//!
//! A pair `(n, d)` with `d != 0` stands for the rational `n / d`.  Endpoint
//! evaluations of a transform may also produce `(n, 0)` with `n != 0`, read
//! as the signed infinity `sgn(n)·∞`; the pair `(0, 0)` is meaningless and is
//! excluded by precondition wherever these relations are applied.

use vstd::prelude::*;
use crate::protocol::Reduction;

verus! {

/// Sign of an integer: -1, 0 or 1.
pub open spec fn sgn(x: int) -> int {
    if x > 0 { 1 } else if x < 0 { -1 } else { 0 }
}

/// Both components zero: the one pair that denotes nothing.
pub open spec fn non_zero(n: int, d: int) -> bool {
    n != 0 || d != 0
}

/// Numerator of the pair re-signed to a non-negative denominator.
pub open spec fn pn(n: int, d: int) -> int {
    if d < 0 { -n } else { n }
}

/// Denominator of the pair re-signed to a non-negative denominator.
pub open spec fn pd(n: int, d: int) -> int {
    if d < 0 { -d } else { d }
}

/// Equality of finite rationals; meaningful when `ad != 0` and `bd != 0`.
pub open spec fn rat_eq(an: int, ad: int, bn: int, bd: int) -> bool {
    an * bd == bn * ad
}

/// Strict order of finite rationals; meaningful when `ad > 0` and `bd > 0`.
pub open spec fn rat_lt(an: int, ad: int, bn: int, bd: int) -> bool {
    an * bd < bn * ad
}

/// Strict order of extended rationals (`d == 0` denotes `sgn(n)·∞`).
pub open spec fn ext_lt(an: int, ad: int, bn: int, bd: int) -> bool {
    if ad == 0 {
        an < 0 && !(bd == 0 && bn < 0)
    } else if bd == 0 {
        bn > 0
    } else {
        pn(an, ad) * pd(bn, bd) < pn(bn, bd) * pd(an, ad)
    }
}

/// Equality of extended rationals.
pub open spec fn ext_eq(an: int, ad: int, bn: int, bd: int) -> bool {
    if ad == 0 || bd == 0 {
        ad == 0 && bd == 0 && sgn(an) == sgn(bn)
    } else {
        an * bd == bn * ad
    }
}

/// Non-strict order of extended rationals.
pub open spec fn ext_le(an: int, ad: int, bn: int, bd: int) -> bool {
    ext_lt(an, ad, bn, bd) || ext_eq(an, ad, bn, bd)
}

/// The two pairs are not opposite infinities; cross-multiplied comparison of
/// sign-normalized pairs is exact under this side condition.
pub open spec fn compat(an: int, ad: int, bn: int, bd: int) -> bool {
    !(ad == 0 && bd == 0 && an * bn < 0)
}

/// Numerator of the sign-normalized form of a pair (denominator made
/// non-negative, an infinity reduced to `(±1, 0)`, a zero to `(0, 1)`).
pub open spec fn norm_n(n: int, d: int) -> int {
    if d == 0 { sgn(n) } else if n == 0 { 0 } else { pn(n, d) }
}

/// Denominator of the sign-normalized form of a pair.
pub open spec fn norm_d(n: int, d: int) -> int {
    if d == 0 { 0 } else if n == 0 { 1 } else { pd(n, d) }
}

/// Domain-exclusion test for one affine form `mx·t + m` over the open unit
/// interval: the sign pattern of the endpoint values `m` and `mx + m` admits
/// no interior root unless the form is identically zero.
pub open spec fn amen(mx: int, m: int) -> bool {
    sgn(m) == 0 || sgn(m) == sgn(mx + m) || sgn(mx + m) == 0
}

/// What one pull step says: how the value `(bn, bd)` before the step relates
/// to the emitted symbol and to the value `(an, ad)` after it.  All four
/// denominators are positive where this is applied.
pub open spec fn step_rel(s: Option<Reduction>, bn: int, bd: int, an: int, ad: int) -> bool {
    match s {
        None => rat_eq(bn, bd, 1, 2) && rat_eq(an, ad, bn, bd),
        Some(Reduction::Amplify) => rat_lt(bn, bd, 1, 2) && rat_eq(an, ad, 2 * bn, bd),
        Some(Reduction::Uncover) => rat_lt(1, 2, bn, bd) && rat_eq(an, ad, bd - bn, bn),
    }
}


/// Evaluation of the affine form `mx·t + m` at the rational `tp / tq`,
/// cleared of the denominator.
pub open spec fn av(mx: int, m: int, tp: int, tq: int) -> int {
    mx * tp + m * tq
}

/// The two pairs are equal up to a positive factor: equal cross products
/// and componentwise equal signs.
pub open spec fn scaled(pn: int, pd: int, qn: int, qd: int) -> bool {
    pn * qd == qn * pd && sgn(pn) == sgn(qn) && sgn(pd) == sgn(qd)
}

/// Positive scaling is transitive.
pub proof fn lemma_scaled_trans(
    an: int, ad: int, bn: int, bd: int, cn: int, cd: int,
)
    requires
        scaled(an, ad, bn, bd),
        scaled(bn, bd, cn, cd),
    ensures
        scaled(an, ad, cn, cd),
{
    if bd == 0 {
        assert(ad == 0 && cd == 0);
        assert(an * 0 == 0 && cn * 0 == 0) by (nonlinear_arith);
    } else if bn == 0 {
        assert(an == 0 && cn == 0);
        assert(0 * cd == 0 && 0 * ad == 0) by (nonlinear_arith);
    } else {
        assert(an * cd == cn * ad) by (nonlinear_arith)
            requires an * bd == bn * ad && bn * cd == cn * bd && bn != 0 && bd != 0;
    }
}

/// The re-signed cross products agree with the raw ones.
pub proof fn lemma_pos_cross(an: int, ad: int, bn: int, bd: int)
    ensures
        (pn(an, ad) * pd(bn, bd) == pn(bn, bd) * pd(an, ad)) == (an * bd == bn * ad),
{
    assert((-an) * bd == -(an * bd) && an * (-bd) == -(an * bd) && (-an) * (-bd) == an * bd)
        by (nonlinear_arith);
    assert((-bn) * ad == -(bn * ad) && bn * (-ad) == -(bn * ad) && (-bn) * (-ad) == bn * ad)
        by (nonlinear_arith);
}

/// Normalization keeps the denoted extended value.
pub proof fn lemma_norm(n: int, d: int)
    requires
        non_zero(n, d),
    ensures
        non_zero(norm_n(n, d), norm_d(n, d)),
        norm_d(n, d) >= 0,
        ext_eq(norm_n(n, d), norm_d(n, d), n, d),
        ext_eq(n, d, norm_n(n, d), norm_d(n, d)),
{
    if d != 0 && n != 0 && d < 0 {
        assert((-n) * d == n * (-d)) by (nonlinear_arith);
    }
}

/// Extended equality is symmetric.
pub proof fn lemma_ext_eq_sym(an: int, ad: int, bn: int, bd: int)
    ensures
        ext_eq(an, ad, bn, bd) == ext_eq(bn, bd, an, ad),
{
}

/// On pairs that denote something, the extended order is a strict total
/// order: exactly one of `a < b`, `a == b`, `b < a` holds.
pub proof fn lemma_ext_total(an: int, ad: int, bn: int, bd: int)
    requires
        non_zero(an, ad),
        non_zero(bn, bd),
    ensures
        ext_lt(an, ad, bn, bd) || ext_eq(an, ad, bn, bd) || ext_lt(bn, bd, an, ad),
        !(ext_lt(an, ad, bn, bd) && ext_eq(an, ad, bn, bd)),
        !(ext_lt(an, ad, bn, bd) && ext_lt(bn, bd, an, ad)),
        !(ext_eq(an, ad, bn, bd) && ext_lt(bn, bd, an, ad)),
{
    if ad != 0 && bd != 0 {
        lemma_pos_cross(an, ad, bn, bd);
        lemma_pos_cross(bn, bd, an, ad);
    }
}

proof fn h_trans_pos(
    an: int, ad: int, bn: int, bd: int, cn: int, cd: int,
)
    requires
        ad > 0,
        bd > 0,
        cd > 0,
        an * bd <= bn * ad,
        bn * cd <= cn * bd,
    ensures
        an * cd <= cn * ad,
        an * bd < bn * ad || bn * cd < cn * bd ==> an * cd < cn * ad,
{
    assert((an * bd) * cd <= (bn * ad) * cd
        && (an * bd < bn * ad ==> (an * bd) * cd < (bn * ad) * cd)) by (nonlinear_arith)
        requires cd > 0 && an * bd <= bn * ad;
    assert((bn * cd) * ad <= (cn * bd) * ad
        && (bn * cd < cn * bd ==> (bn * cd) * ad < (cn * bd) * ad)) by (nonlinear_arith)
        requires ad > 0 && bn * cd <= cn * bd;
    assert((an * bd) * cd == (an * cd) * bd && (bn * ad) * cd == (bn * cd) * ad
        && (cn * bd) * ad == (cn * ad) * bd) by (nonlinear_arith);
    assert((an * cd) * bd <= (cn * ad) * bd ==> an * cd <= cn * ad) by (nonlinear_arith)
        requires bd > 0;
    assert((an * cd) * bd < (cn * ad) * bd ==> an * cd < cn * ad) by (nonlinear_arith)
        requires bd > 0;
}

/// Transitivity of the non-strict extended order, with strictness carried
/// through if either link is strict.
pub proof fn lemma_ext_le_trans(
    an: int, ad: int, bn: int, bd: int, cn: int, cd: int,
)
    requires
        non_zero(an, ad),
        non_zero(bn, bd),
        non_zero(cn, cd),
        ext_le(an, ad, bn, bd),
        ext_le(bn, bd, cn, cd),
    ensures
        ext_le(an, ad, cn, cd),
        ext_lt(an, ad, bn, bd) || ext_lt(bn, bd, cn, cd) ==> ext_lt(an, ad, cn, cd),
{
    lemma_ext_total(an, ad, bn, bd);
    lemma_ext_total(bn, bd, cn, cd);
    lemma_ext_total(an, ad, cn, cd);
    if ad != 0 && bd != 0 && cd != 0 {
        lemma_pos_cross(an, ad, bn, bd);
        lemma_pos_cross(bn, bd, cn, cd);
        lemma_pos_cross(an, ad, cn, cd);
        h_trans_pos(pn(an, ad), pd(an, ad), pn(bn, bd), pd(bn, bd), pn(cn, cd), pd(cn, cd));
    }
}

/// The extended relations are stable under exchanging each side for an
/// extended-equal pair.
pub proof fn lemma_ext_le_congr(
    an: int, ad: int, bn: int, bd: int, xn: int, xd: int, yn: int, yd: int,
)
    requires
        non_zero(an, ad),
        non_zero(bn, bd),
        non_zero(xn, xd),
        non_zero(yn, yd),
        ext_eq(an, ad, xn, xd),
        ext_eq(bn, bd, yn, yd),
    ensures
        ext_le(an, ad, bn, bd) == ext_le(xn, xd, yn, yd),
        ext_lt(an, ad, bn, bd) == ext_lt(xn, xd, yn, yd),
        ext_eq(an, ad, bn, bd) == ext_eq(xn, xd, yn, yd),
{
    lemma_ext_eq_sym(an, ad, xn, xd);
    lemma_ext_eq_sym(bn, bd, yn, yd);
    lemma_ext_eq_sym(an, ad, bn, bd);
    lemma_ext_total(an, ad, bn, bd);
    lemma_ext_total(xn, xd, yn, yd);
    if ext_lt(an, ad, bn, bd) {
        lemma_ext_le_trans(xn, xd, an, ad, bn, bd);
        lemma_ext_le_trans(xn, xd, bn, bd, yn, yd);
    } else if ext_eq(an, ad, bn, bd) {
        lemma_ext_le_trans(xn, xd, an, ad, bn, bd);
        lemma_ext_le_trans(xn, xd, bn, bd, yn, yd);
        lemma_ext_le_trans(yn, yd, bn, bd, an, ad);
        lemma_ext_le_trans(yn, yd, an, ad, xn, xd);
        lemma_ext_total(yn, yd, xn, xd);
        lemma_ext_eq_sym(yn, yd, xn, xd);
    } else {
        lemma_ext_le_trans(yn, yd, bn, bd, an, ad);
        lemma_ext_le_trans(yn, yd, an, ad, xn, xd);
        lemma_ext_total(yn, yd, xn, xd);
    }
}

/// A cross-multiplied comparison of two sign-normalized, compatible pairs is
/// exactly the extended order.
pub proof fn lemma_norm_cmp(an: int, ad: int, bn: int, bd: int)
    requires
        non_zero(an, ad),
        non_zero(bn, bd),
        compat(an, ad, bn, bd),
    ensures
        ext_lt(norm_n(an, ad), norm_d(an, ad), norm_n(bn, bd), norm_d(bn, bd))
            == (norm_n(an, ad) * norm_d(bn, bd) < norm_n(bn, bd) * norm_d(an, ad)),
{
    let xn = norm_n(an, ad);
    let xd = norm_d(an, ad);
    let yn = norm_n(bn, bd);
    let yd = norm_d(bn, bd);
    if xd != 0 && yd != 0 {
        assert(xd > 0 && yd > 0);
        assert(pn(xn, xd) == xn && pd(xn, xd) == xd && pn(yn, yd) == yn && pd(yn, yd) == yd);
    } else if xd == 0 && yd != 0 {
        assert(yd > 0);
        assert((xn * yd < yn * 0) == (xn < 0)) by (nonlinear_arith)
            requires yd > 0;
    } else if xd != 0 && yd == 0 {
        assert(xd > 0);
        assert((xn * 0 < yn * xd) == (yn > 0)) by (nonlinear_arith)
            requires xd > 0;
    } else {
        assert(an != 0 && bn != 0 && an * bn >= 0);
        assert(sgn(an) == sgn(bn)) by (nonlinear_arith)
            requires an != 0 && bn != 0 && an * bn >= 0;
        assert(xn * 0 == 0 && yn * 0 == 0) by (nonlinear_arith);
    }
}

/// Congruence: replacing both sides of a comparison of finite rationals by
/// equal rationals keeps the comparison.  Denominators positive.
pub proof fn lemma_rat_lt_congr(
    an: int, ad: int, bn: int, bd: int, xn: int, xd: int, yn: int, yd: int,
)
    requires
        ad > 0, bd > 0, xd > 0, yd > 0,
        rat_eq(an, ad, xn, xd),
        rat_eq(bn, bd, yn, yd),
    ensures
        rat_lt(an, ad, bn, bd) == rat_lt(xn, xd, yn, yd),
        rat_eq(an, ad, bn, bd) == rat_eq(xn, xd, yn, yd),
{
    assert((an * bd < bn * ad) == (xn * yd < yn * xd) && (an * bd == bn * ad) == (xn * yd == yn * xd))
        by (nonlinear_arith)
        requires ad > 0 && bd > 0 && xd > 0 && yd > 0 && an * xd == xn * ad && bn * yd == yn * bd;
}

/// Equality of finite rationals is transitive through a pair with nonzero
/// denominator.
pub proof fn lemma_rat_eq_trans(
    an: int, ad: int, bn: int, bd: int, cn: int, cd: int,
)
    requires
        ad != 0, bd != 0, cd != 0,
        rat_eq(an, ad, bn, bd),
        rat_eq(bn, bd, cn, cd),
    ensures
        rat_eq(an, ad, cn, cd),
{
    assert(an * cd == cn * ad) by (nonlinear_arith)
        requires bd != 0 && an * bd == bn * ad && bn * cd == cn * bd;
}

proof fn h_affine_scale(s: int, t: int, w: int)
    requires
        t > 0,
        s == w * t,
    ensures
        sgn(s) == sgn(w),
{
    assert(sgn(w * t) == sgn(w)) by (nonlinear_arith)
        requires t > 0;
}

/// An affine form with an amenable, not identically zero sign pattern does
/// not vanish at an interior point, and takes the sign of whichever endpoint
/// value is nonzero.
pub proof fn lemma_affine_sign(mx: int, m: int, tp: int, tq: int)
    requires
        0 < tp < tq,
        amen(mx, m),
        non_zero(mx, m),
    ensures
        mx * tp + m * tq != 0,
        m != 0 ==> sgn(mx * tp + m * tq) == sgn(m),
        mx + m != 0 ==> sgn(mx * tp + m * tq) == sgn(mx + m),
{
    assert(mx * tp + m * tq == (mx + m) * tp + m * (tq - tp)) by (nonlinear_arith);
    if m == 0 {
        h_affine_scale(mx * tp + m * tq, tp, mx + m);
    } else if mx + m == 0 {
        h_affine_scale(mx * tp + m * tq, tq - tp, m);
    } else {
        assert(sgn(m) == sgn(mx + m));
        assert(m != 0 && sgn(mx * tp + m * tq) == sgn(m)) by (nonlinear_arith)
            requires
                mx * tp + m * tq == (mx + m) * tp + m * (tq - tp),
                tp > 0,
                tq - tp > 0,
                sgn(m) == sgn(mx + m),
                m != 0;
    }
}

/// A linear form respects equality of the underlying rational: evaluating at
/// equal points with positive denominators gives values equal up to a
/// positive factor, hence with equal sign and cross products.
pub proof fn lemma_affine_congr(
    mx: int, m: int, nx: int, n: int, ap: int, aq: int, bp: int, bq: int,
)
    requires
        aq > 0, bq > 0,
        rat_eq(ap, aq, bp, bq),
    ensures
        (mx * ap + m * aq) * bq == (mx * bp + m * bq) * aq,
        sgn(mx * ap + m * aq) == sgn(mx * bp + m * bq),
        (mx * ap + m * aq) * (nx * bp + n * bq) == (mx * bp + m * bq) * (nx * ap + n * aq),
{
    let ma = mx * ap + m * aq;
    let mb = mx * bp + m * bq;
    let na = nx * ap + n * aq;
    let nb = nx * bp + n * bq;
    assert((mx * ap + m * aq) * bq == (mx * bp + m * bq) * aq) by (nonlinear_arith)
        requires ap * bq == bp * aq;
    assert((nx * ap + n * aq) * bq == (nx * bp + n * bq) * aq) by (nonlinear_arith)
        requires ap * bq == bp * aq;
    assert(sgn(mx * ap + m * aq) == sgn(mx * bp + m * bq)) by (nonlinear_arith)
        requires aq > 0 && bq > 0 && (mx * ap + m * aq) * bq == (mx * bp + m * bq) * aq;
    assert(ma * nb * aq == mb * na * aq) by (nonlinear_arith)
        requires ma * bq == mb * aq && na * bq == nb * aq;
    assert(ma * nb == mb * na) by (nonlinear_arith)
        requires ma * nb * aq == mb * na * aq && aq > 0;
}


/// Number of reduction symbols in the canonical expansion of a rational in
/// (0,1): zero exactly at one half, one more for each halving or
/// reciprocate-and-subtract step otherwise.
pub open spec fn cl_len(p: int, q: int) -> nat
    decreases q, q - p when 0 < p < q
{
    if !(0 < p < q) {
        0
    } else if 2 * p == q {
        0
    } else if 2 * p < q {
        1 + cl_len(2 * p, q)
    } else {
        1 + cl_len(q - p, p)
    }
}

/// The expansion length is a function of the denoted value alone.
pub proof fn lemma_cl_len_congr(p: int, q: int, x: int, y: int)
    requires
        0 < p < q,
        0 < x < y,
        rat_eq(p, q, x, y),
    ensures
        cl_len(p, q) == cl_len(x, y),
    decreases q, q - p,
{
    assert((2 * p == q) == (2 * x == y) && (2 * p < q) == (2 * x < y)
        && (2 * p) * y == (2 * x) * q
        && (q - p) * x == (y - x) * p
        && q * x == y * p) by (nonlinear_arith)
        requires 0 < p < q && 0 < x < y && p * y == x * q;
    if 2 * p == q {
    } else if 2 * p < q {
        lemma_cl_len_congr(2 * p, q, 2 * x, y);
    } else {
        lemma_cl_len_congr(q - p, p, y - x, x);
    }
}

/// Each emitted symbol shortens the canonical expansion by one.
pub proof fn lemma_cl_len_step(
    s: Option<Reduction>, bn: int, bd: int, an: int, ad: int,
)
    requires
        0 < bn < bd,
        0 < an < ad,
        step_rel(s, bn, bd, an, ad),
        s is Some,
    ensures
        cl_len(an, ad) < cl_len(bn, bd),
{
    match s {
        None => {},
        Some(Reduction::Amplify) => {
            assert(2 * bn < bd);
            assert(0 < 2 * bn < bd);
            lemma_cl_len_congr(an, ad, 2 * bn, bd);
        },
        Some(Reduction::Uncover) => {
            assert(bd < 2 * bn);
            assert(0 < bd - bn && bd - bn < bn);
            lemma_cl_len_congr(an, ad, bd - bn, bn);
        },
    }
}


/// Law: the strict order of finite rationals over positive denominators is
/// transitive, so together with the trichotomy of cross products it is a
/// strict total order over all denoted values.
pub proof fn lemma_rat_order_trans(
    an: int, ad: int, bn: int, bd: int, cn: int, cd: int,
)
    requires
        ad > 0, bd > 0, cd > 0,
        rat_lt(an, ad, bn, bd),
        rat_lt(bn, bd, cn, cd),
    ensures
        rat_lt(an, ad, cn, cd),
        !rat_eq(an, ad, cn, cd),
        !rat_lt(cn, cd, an, ad),
{
    h_trans_pos(an, ad, bn, bd, cn, cd);
}

/// Law: comparing the values of two signed fractions follows the sign of
/// the cross products, corrected by the signs of the two denominators.
pub proof fn lemma_ratio_cross_sign(
    vn1: int, vd1: int, vn2: int, vd2: int, a: int, b: int, c: int, d: int,
)
    requires
        vd1 > 0, vd2 > 0,
        b != 0, d != 0,
        rat_eq(vn1, vd1, a, b),
        rat_eq(vn2, vd2, c, d),
    ensures
        rat_lt(vn1, vd1, vn2, vd2) == (a * d * sgn(b) * sgn(d) < c * b * sgn(b) * sgn(d)),
        rat_eq(vn1, vd1, vn2, vd2) == (a * d * sgn(b) * sgn(d) == c * b * sgn(b) * sgn(d)),
{
    lemma_pos_cross(vn1, vd1, a, b);
    lemma_pos_cross(vn2, vd2, c, d);
    assert(pn(vn1, vd1) == vn1 && pd(vn1, vd1) == vd1 && pn(vn2, vd2) == vn2
        && pd(vn2, vd2) == vd2);
    assert(a * sgn(b) == pn(a, b) && b * sgn(b) == pd(a, b)) by (nonlinear_arith)
        requires b != 0 && sgn(b) == (if b > 0 { 1int } else { -1int })
            && pn(a, b) == (if b < 0 { -a } else { a })
            && pd(a, b) == (if b < 0 { -b } else { b });
    assert(c * sgn(d) == pn(c, d) && d * sgn(d) == pd(c, d)) by (nonlinear_arith)
        requires d != 0 && sgn(d) == (if d > 0 { 1int } else { -1int })
            && pn(c, d) == (if d < 0 { -c } else { c })
            && pd(c, d) == (if d < 0 { -d } else { d });
    lemma_rat_lt_congr(vn1, vd1, vn2, vd2, pn(a, b), pd(a, b), pn(c, d), pd(c, d));
    assert(((a * sgn(b)) * (d * sgn(d)) < (c * sgn(d)) * (b * sgn(b)))
            == (a * d * sgn(b) * sgn(d) < c * b * sgn(b) * sgn(d))
        && ((a * sgn(b)) * (d * sgn(d)) == (c * sgn(d)) * (b * sgn(b)))
            == (a * d * sgn(b) * sgn(d) == c * b * sgn(b) * sgn(d))) by (nonlinear_arith);
}

/// Law: the identity transform leaves every value unchanged: its evaluation
/// at any value pair is that pair itself.
pub proof fn lemma_homographic_identity(p: int, q: int)
    requires
        q > 0,
    ensures
        av(1, 0, p, q) == p,
        av(0, 1, p, q) == q,
        rat_eq(av(1, 0, p, q), av(0, 1, p, q), p, q),
{
    assert(1 * p + 0 * q == p && 0 * p + 1 * q == q) by (nonlinear_arith);
}

/// Law: the one-variable transform of a fraction has the closed form with
/// numerator `a·p + b·q` and denominator `c·p + d·q`, whichever equal pair
/// the fraction is given by.
pub proof fn lemma_homographic_closed_form(
    a: int, b: int, c: int, d: int, vn: int, vd: int, p: int, q: int,
)
    requires
        vd > 0, q > 0,
        rat_eq(vn, vd, p, q),
    ensures
        rat_eq(av(a, b, vn, vd), av(c, d, vn, vd), av(a, b, p, q), av(c, d, p, q)),
{
    lemma_affine_congr(a, b, c, d, vn, vd, p, q);
}


/// Folding one halving of the inner value into the coefficients keeps the
/// transform's value: evaluating the halved (or constant-doubled)
/// coefficients at the doubled value gives the old pair up to a positive
/// factor.
pub proof fn lemma_fold_amplify(
    nx: int, n: int, dx: int, d: int,
    nx2: int, n2: int, dx2: int, d2: int,
    bn: int, bd: int, an: int, ad: int,
)
    requires
        bd > 0,
        ad > 0,
        rat_eq(an, ad, 2 * bn, bd),
        (2 * nx2 == nx && n2 == n && 2 * dx2 == dx && d2 == d)
            || (nx2 == nx && n2 == 2 * n && dx2 == dx && d2 == 2 * d),
    ensures
        scaled(av(nx2, n2, an, ad), av(dx2, d2, an, ad), av(nx, n, bn, bd), av(dx, d, bn, bd)),
{
    lemma_affine_congr(nx2, n2, dx2, d2, an, ad, 2 * bn, bd);
    lemma_affine_congr(dx2, d2, nx2, n2, an, ad, 2 * bn, bd);
    let pm = av(nx2, n2, 2 * bn, bd);
    let qm = av(dx2, d2, 2 * bn, bd);
    let p0 = av(nx, n, bn, bd);
    let q0 = av(dx, d, bn, bd);
    if 2 * nx2 == nx && n2 == n && 2 * dx2 == dx && d2 == d {
        assert(pm == p0 && qm == q0) by (nonlinear_arith)
            requires
                pm == nx2 * (2 * bn) + n2 * bd && p0 == nx * bn + n * bd
                    && 2 * nx2 == nx && n2 == n,
                qm == dx2 * (2 * bn) + d2 * bd && q0 == dx * bn + d * bd
                    && 2 * dx2 == dx && d2 == d;
        lemma_scaled_trans(
            av(nx2, n2, an, ad), av(dx2, d2, an, ad), pm, qm, p0, q0,
        );
    } else {
        assert(pm == 2 * p0 && qm == 2 * q0) by (nonlinear_arith)
            requires
                pm == nx2 * (2 * bn) + n2 * bd && p0 == nx * bn + n * bd
                    && nx2 == nx && n2 == 2 * n,
                qm == dx2 * (2 * bn) + d2 * bd && q0 == dx * bn + d * bd
                    && dx2 == dx && d2 == 2 * d;
        assert(scaled(pm, qm, p0, q0)) by (nonlinear_arith)
            requires pm == 2 * p0 && qm == 2 * q0;
        lemma_scaled_trans(
            av(nx2, n2, an, ad), av(dx2, d2, an, ad), pm, qm, p0, q0,
        );
    }
}

/// Folding one reciprocate-and-subtract step of the inner value into the
/// coefficients keeps the transform's value exactly.
pub proof fn lemma_fold_uncover(
    nx: int, n: int, dx: int, d: int,
    nx2: int, n2: int, dx2: int, d2: int,
    bn: int, bd: int, an: int, ad: int,
)
    requires
        0 < bn,
        bd > 0,
        ad > 0,
        rat_eq(an, ad, bd - bn, bn),
        nx2 == n && n2 == nx + n && dx2 == d && d2 == dx + d,
    ensures
        scaled(av(nx2, n2, an, ad), av(dx2, d2, an, ad), av(nx, n, bn, bd), av(dx, d, bn, bd)),
{
    lemma_affine_congr(nx2, n2, dx2, d2, an, ad, bd - bn, bn);
    lemma_affine_congr(dx2, d2, nx2, n2, an, ad, bd - bn, bn);
    let pm = av(nx2, n2, bd - bn, bn);
    let qm = av(dx2, d2, bd - bn, bn);
    let p0 = av(nx, n, bn, bd);
    let q0 = av(dx, d, bn, bd);
    assert(pm == p0 && qm == q0) by (nonlinear_arith)
        requires
            pm == nx2 * (bd - bn) + n2 * bn && p0 == nx * bn + n * bd
                && nx2 == n && n2 == nx + n,
            qm == dx2 * (bd - bn) + d2 * bn && q0 == dx * bn + d * bd
                && dx2 == d && d2 == dx + d;
    lemma_scaled_trans(av(nx2, n2, an, ad), av(dx2, d2, an, ad), pm, qm, p0, q0);
}


/// The step relation respects exchanging the before-pair for an equal one.
pub proof fn lemma_step_congr(
    s: Option<Reduction>, bn: int, bd: int, cn: int, cd: int, an: int, ad: int,
)
    requires
        0 < bn < bd,
        0 < cn < cd,
        ad > 0,
        rat_eq(bn, bd, cn, cd),
        step_rel(s, bn, bd, an, ad),
    ensures
        step_rel(s, cn, cd, an, ad),
{
    match s {
        None => {
            lemma_rat_eq_trans(cn, cd, bn, bd, 1, 2);
            assert(cn * bd == bn * cd) by (nonlinear_arith)
                requires bn * cd == cn * bd;
            lemma_rat_eq_trans(an, ad, bn, bd, cn, cd);
        },
        Some(Reduction::Amplify) => {
            lemma_rat_lt_congr(bn, bd, 1, 2, cn, cd, 1, 2);
            assert(an * cd == (2 * cn) * ad) by (nonlinear_arith)
                requires an * bd == (2 * bn) * ad && bn * cd == cn * bd && bd > 0;
        },
        Some(Reduction::Uncover) => {
            lemma_rat_lt_congr(1, 2, bn, bd, 1, 2, cn, cd);
            assert(an * cn == (cd - cn) * ad) by (nonlinear_arith)
                requires an * bn == (bd - bn) * ad && bn * cd == cn * bd && bd > 0 && bn > 0
                    && cn > 0;
        },
    }
}

/// At exhaustion the inner value is exactly one half, so the coefficients
/// evaluated at one half stand for the same pair, up to a positive factor.
pub proof fn lemma_fold_exhausted(
    nx: int, n: int, dx: int, d: int, bn: int, bd: int,
)
    requires
        0 < bn < bd,
        rat_eq(bn, bd, 1, 2),
    ensures
        scaled(av(nx, n, 1, 2), av(dx, d, 1, 2), av(nx, n, bn, bd), av(dx, d, bn, bd)),
{
    lemma_affine_congr(nx, n, dx, d, 1, 2, bn, bd);
    lemma_affine_congr(dx, d, nx, n, 1, 2, bn, bd);
}


/// Law: a result of the identity transform denotes its operand's value:
/// from the transform's own contract with coefficients one, zero, zero,
/// one, the result's pair equals the operand's pair.
pub proof fn lemma_homographic_identity_value(vn: int, vd: int, p: int, q: int)
    requires
        q > 0,
        vn * av(0, 1, p, q) == av(1, 0, p, q) * vd,
    ensures
        rat_eq(vn, vd, p, q),
{
    lemma_homographic_identity(p, q);
}

/// Law: a transform of a fraction denotes the closed form with numerator
/// `a·p + b·q` and denominator `c·p + d·q`, through any equal pair the
/// fraction is given by.
pub proof fn lemma_homographic_closed_form_value(
    vn: int, vd: int, xvn: int, xvd: int, p: int, q: int,
    a: int, b: int, c: int, d: int,
)
    requires
        xvd > 0,
        q > 0,
        rat_eq(xvn, xvd, p, q),
        vn * av(c, d, xvn, xvd) == av(a, b, xvn, xvd) * vd,
    ensures
        rat_eq(vn, vd, av(a, b, p, q), av(c, d, p, q)),
        av(c, d, xvn, xvd) == 0 ==> av(c, d, p, q) == 0,
{
    lemma_affine_congr(a, b, c, d, xvn, xvd, p, q);
    lemma_affine_congr(c, d, a, b, xvn, xvd, p, q);
    let hn = av(a, b, xvn, xvd);
    let hd = av(c, d, xvn, xvd);
    let gn = av(a, b, p, q);
    let gd = av(c, d, p, q);
    assert((vn * gd - gn * vd) * hd == 0) by (nonlinear_arith)
        requires
            vn * hd == hn * vd,
            hn * gd == gn * hd;
    if hd != 0 {
        assert(vn * gd == gn * vd) by (nonlinear_arith)
            requires (vn * gd - gn * vd) * hd == 0 && hd != 0;
    } else {
        assert(gd * xvd == 0) by (nonlinear_arith)
            requires hd * q == gd * xvd && hd == 0 && q > 0;
        assert(gd == 0) by (nonlinear_arith)
            requires gd * xvd == 0 && xvd > 0;
        assert(hn * vd == 0) by (nonlinear_arith)
            requires vn * hd == hn * vd && hd == 0;
        if hn == 0 {
            assert(gn * xvd == 0) by (nonlinear_arith)
                requires hn * q == gn * xvd && hn == 0 && q > 0;
            assert(gn == 0) by (nonlinear_arith)
                requires gn * xvd == 0 && xvd > 0;
            assert(vn * gd == gn * vd) by (nonlinear_arith)
                requires gd == 0 && gn == 0;
        } else {
            assert(vd == 0) by (nonlinear_arith)
                requires hn * vd == 0 && hn != 0;
            assert(vn * gd == gn * vd) by (nonlinear_arith)
                requires gd == 0 && vd == 0;
        }
    }
}

} // verus!
