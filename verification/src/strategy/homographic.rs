//! The one-variable transform strategy: lazily computes
//! `(nx·x + n) / (dx·x + d)` for one inner stream `x` in (0,1).
//!
//! Before any symbol is emitted, both singularities of the transform (its
//! zero and its pole) must provably lie outside the current domain, and the
//! image of the domain, bounded by the exact endpoint values, must fit the
//! emitted symbol; otherwise one more symbol is first ingested from `x`.
//! Streams generated here are outside the exact value model that the base
//! rational streams carry; their symbols come from the same guarded
//! interval tests, and every coefficient update is checked.

use vstd::prelude::*;
use crate::protocol::{Reduction, Primer, Special};
use crate::rat::{
    av, amen, sgn, non_zero, ext_le, ext_lt, ext_eq, rat_eq, rat_lt, scaled, step_rel, cl_len,
    lemma_affine_sign, lemma_affine_congr, lemma_scaled_trans,
    lemma_fold_amplify, lemma_fold_uncover,
};
use crate::strategy::{Strategy, Step, support, ratio};
use crate::{Clog, Number, Error, lemma_clog_val};

verus! {

/// The transform maps the point `tp / tq` into the open unit interval, and
/// its denominator does not vanish there.
pub open spec fn hom_ok(nx: int, n: int, dx: int, d: int, tp: int, tq: int) -> bool {
    let nn = av(nx, n, tp, tq);
    let dd = av(dx, d, tp, tq);
    dd != 0 && 0 < nn * dd && nn * dd < dd * dd
}

/// The transform maps the whole open unit interval into itself: the primed
/// state in which reduction symbols may be emitted.
pub open spec fn hom_inv(nx: int, n: int, dx: int, d: int) -> bool {
    forall|tp: int, tq: int| 0 < tp < tq ==> #[trigger] hom_ok(nx, n, dx, d, tp, tq)
}

/// The transform's value is strictly below the constant `kn / kd` at every
/// point of the open unit interval, with a nonvanishing denominator.
pub open spec fn hom_below(nx: int, n: int, dx: int, d: int, kn: int, kd: int) -> bool {
    forall|tp: int, tq: int| 0 < tp < tq ==> #[trigger] hom_cmp(nx, n, dx, d, kn, kd, tp, tq) < 0
}

/// The transform's value is strictly above the constant `kn / kd` at every
/// point of the open unit interval, with a nonvanishing denominator.
pub open spec fn hom_above(nx: int, n: int, dx: int, d: int, kn: int, kd: int) -> bool {
    forall|tp: int, tq: int| 0 < tp < tq ==> #[trigger] hom_cmp(nx, n, dx, d, kn, kd, tp, tq) > 0
}

/// Sign of the comparison of the transform's value at one point against the
/// constant `kn / kd`: the cross term times the denominator, zero also when
/// the denominator vanishes.
pub open spec fn hom_cmp(nx: int, n: int, dx: int, d: int, kn: int, kd: int, tp: int, tq: int) -> int {
    (av(nx, n, tp, tq) * kd - kn * av(dx, d, tp, tq)) * av(dx, d, tp, tq)
}

proof fn h_val_pos(nn: int, dd: int)
    requires
        0 < nn * dd,
        nn * dd < dd * dd,
    ensures
        dd < 0 ==> 0 < -nn < -dd,
        dd >= 0 ==> 0 < nn < dd,
{
    assert((dd > 0 ==> 0 < nn < dd) && (dd < 0 ==> 0 < -nn < -dd) && dd != 0) by (nonlinear_arith)
        requires 0 < nn * dd && nn * dd < dd * dd;
}

/// Translate the extended comparison of an endpoint pair against the
/// constant `kn / kd` into the sign of the cross term times the endpoint
/// denominator.
proof fn h_le_k(fnn: int, fd: int, kn: int, kd: int)
    requires
        kd > 0,
        non_zero(fnn, fd),
    ensures
        fd != 0 ==> ext_le(fnn, fd, kn, kd) == ((fnn * kd - kn * fd) * fd <= 0),
        fd != 0 ==> ext_eq(fnn, fd, kn, kd) == (fnn * kd - kn * fd == 0),
        fd != 0 ==> ext_le(kn, kd, fnn, fd) == ((fnn * kd - kn * fd) * fd >= 0),
        fd == 0 ==> ext_le(fnn, fd, kn, kd) == (fnn < 0) && !ext_eq(fnn, fd, kn, kd),
        fd == 0 ==> ext_le(kn, kd, fnn, fd) == (fnn > 0) && !ext_eq(kn, kd, fnn, fd),
{
    if fd > 0 {
        assert(crate::rat::pn(fnn, fd) == fnn && crate::rat::pd(fnn, fd) == fd
            && crate::rat::pn(kn, kd) == kn && crate::rat::pd(kn, kd) == kd);
        assert((crate::rat::pn(fnn, fd) * crate::rat::pd(kn, kd)
                < crate::rat::pn(kn, kd) * crate::rat::pd(fnn, fd))
                == ((fnn * kd - kn * fd) * fd < 0)
            && (crate::rat::pn(kn, kd) * crate::rat::pd(fnn, fd)
                < crate::rat::pn(fnn, fd) * crate::rat::pd(kn, kd))
                == ((fnn * kd - kn * fd) * fd > 0)
            && (fnn * kd == kn * fd) == ((fnn * kd - kn * fd) == 0)
            && ((fnn * kd - kn * fd) * fd == 0) == (fnn * kd - kn * fd == 0)) by (nonlinear_arith)
            requires fd > 0
                && crate::rat::pn(fnn, fd) == fnn && crate::rat::pd(fnn, fd) == fd
                && crate::rat::pn(kn, kd) == kn && crate::rat::pd(kn, kd) == kd;
    } else if fd < 0 {
        assert(crate::rat::pn(fnn, fd) == -fnn && crate::rat::pd(fnn, fd) == -fd
            && crate::rat::pn(kn, kd) == kn && crate::rat::pd(kn, kd) == kd);
        assert((crate::rat::pn(fnn, fd) * crate::rat::pd(kn, kd)
                < crate::rat::pn(kn, kd) * crate::rat::pd(fnn, fd))
                == ((fnn * kd - kn * fd) * fd < 0)
            && (crate::rat::pn(kn, kd) * crate::rat::pd(fnn, fd)
                < crate::rat::pn(fnn, fd) * crate::rat::pd(kn, kd))
                == ((fnn * kd - kn * fd) * fd > 0)
            && (fnn * kd == kn * fd) == ((fnn * kd - kn * fd) == 0)
            && ((fnn * kd - kn * fd) * fd == 0) == (fnn * kd - kn * fd == 0)) by (nonlinear_arith)
            requires fd < 0
                && crate::rat::pn(fnn, fd) == -fnn && crate::rat::pd(fnn, fd) == -fd
                && crate::rat::pn(kn, kd) == kn && crate::rat::pd(kn, kd) == kd;
    }
}

proof fn h_decomp(nx: int, n: int, dx: int, d: int, kn: int, kd: int, tp: int, tq: int)
    ensures
        (nx * tp + n * tq) * kd - kn * (dx * tp + d * tq)
            == tp * ((nx + n) * kd - kn * (dx + d)) + (tq - tp) * (n * kd - kn * d),
        dx * tp + d * tq == tp * (dx + d) + (tq - tp) * d,
{
    broadcast use vstd::arithmetic::mul::group_mul_properties;
}

/// If both endpoint values are at most the constant `kn / kd`, the value at
/// every interior point is too; strictly, unless both endpoints equal the
/// constant.  Endpoint infinities are only admitted for negative constants,
/// where the numerator-side domain test rules the bad sign patterns out.
proof fn lemma_hom_upper(nx: int, n: int, dx: int, d: int, kn: int, kd: int, tp: int, tq: int)
    requires
        0 < tp < tq,
        kd > 0,
        amen(nx, n),
        amen(dx, d),
        non_zero(dx, d),
        non_zero(n, d),
        non_zero(nx + n, dx + d),
        ext_le(n, d, kn, kd),
        ext_le(nx + n, dx + d, kn, kd),
        d == 0 ==> kn < 0,
        dx + d == 0 ==> kn < 0,
    ensures
        av(dx, d, tp, tq) != 0,
        hom_cmp(nx, n, dx, d, kn, kd, tp, tq) <= 0,
        !(ext_eq(n, d, kn, kd) && ext_eq(nx + n, dx + d, kn, kd))
            ==> hom_cmp(nx, n, dx, d, kn, kd, tp, tq) < 0,
{
    let d1 = dx + d;
    let c0 = n * kd - kn * d;
    let c1 = (nx + n) * kd - kn * d1;
    let nn = av(nx, n, tp, tq);
    let dd = av(dx, d, tp, tq);
    let cv = nn * kd - kn * dd;
    lemma_affine_sign(dx, d, tp, tq);
    h_decomp(nx, n, dx, d, kn, kd, tp, tq);
    assert(cv == tp * c1 + (tq - tp) * c0);
    assert(dd == tp * d1 + (tq - tp) * d);
    h_le_k(n, d, kn, kd);
    h_le_k(nx + n, d1, kn, kd);
    if d != 0 && d1 != 0 {
        assert(sgn(d) == sgn(d1));
        if d > 0 {
            assert(c0 <= 0 && c1 <= 0) by (nonlinear_arith)
                requires d > 0 && d1 > 0 && c0 * d <= 0 && c1 * d1 <= 0;
            assert(cv <= 0 && (!(c0 == 0 && c1 == 0) ==> cv < 0)) by (nonlinear_arith)
                requires cv == tp * c1 + (tq - tp) * c0 && c0 <= 0 && c1 <= 0 && 0 < tp < tq;
            assert(dd > 0) by (nonlinear_arith)
                requires dd == tp * d1 + (tq - tp) * d && d > 0 && d1 > 0 && 0 < tp < tq;
            assert(cv * dd <= 0 && (cv < 0 ==> cv * dd < 0)) by (nonlinear_arith)
                requires cv <= 0 && dd > 0;
        } else {
            assert(c0 >= 0 && c1 >= 0) by (nonlinear_arith)
                requires d < 0 && d1 < 0 && c0 * d <= 0 && c1 * d1 <= 0;
            assert(cv >= 0 && (!(c0 == 0 && c1 == 0) ==> cv > 0)) by (nonlinear_arith)
                requires cv == tp * c1 + (tq - tp) * c0 && c0 >= 0 && c1 >= 0 && 0 < tp < tq;
            assert(dd < 0) by (nonlinear_arith)
                requires dd == tp * d1 + (tq - tp) * d && d < 0 && d1 < 0 && 0 < tp < tq;
            assert(cv * dd <= 0 && (cv > 0 ==> cv * dd < 0)) by (nonlinear_arith)
                requires cv >= 0 && dd < 0;
        }
    } else if d == 0 {
        assert(n < 0 && dx != 0 && d1 == dx && kn < 0);
        assert(nx + n <= 0);
        assert(c0 < 0) by (nonlinear_arith)
            requires n < 0 && kd > 0 && c0 == n * kd - kn * 0 && kn * 0 == 0;
        if dx > 0 {
            assert(c1 <= 0) by (nonlinear_arith)
                requires dx > 0 && c1 * dx <= 0;
            assert(cv < 0) by (nonlinear_arith)
                requires cv == tp * c1 + (tq - tp) * c0 && c1 <= 0 && c0 < 0 && 0 < tp < tq;
            assert(dd > 0) by (nonlinear_arith)
                requires dd == tp * d1 + (tq - tp) * 0 && d1 == dx && dx > 0 && tp > 0
                    && (tq - tp) * 0 == 0;
            assert(cv * dd < 0) by (nonlinear_arith)
                requires cv < 0 && dd > 0;
        } else {
            assert(c1 >= 0) by (nonlinear_arith)
                requires dx < 0 && c1 * dx <= 0;
            assert(false) by (nonlinear_arith)
                requires c1 == (nx + n) * kd - kn * dx && nx + n <= 0 && kd > 0 && kn < 0
                    && dx < 0 && c1 >= 0;
        }
    } else {
        assert(d1 == 0 && nx + n < 0 && d != 0 && kn < 0);
        assert(n <= 0);
        assert(c1 < 0) by (nonlinear_arith)
            requires nx + n < 0 && kd > 0 && c1 == (nx + n) * kd - kn * 0 && kn * 0 == 0;
        if d > 0 {
            assert(c0 <= 0) by (nonlinear_arith)
                requires d > 0 && c0 * d <= 0;
            assert(cv < 0) by (nonlinear_arith)
                requires cv == tp * c1 + (tq - tp) * c0 && c0 <= 0 && c1 < 0 && 0 < tp < tq;
            assert(dd > 0) by (nonlinear_arith)
                requires dd == tp * 0 + (tq - tp) * d && d > 0 && tq - tp > 0 && tp * 0 == 0;
            assert(cv * dd < 0) by (nonlinear_arith)
                requires cv < 0 && dd > 0;
        } else {
            assert(c0 >= 0) by (nonlinear_arith)
                requires d < 0 && c0 * d <= 0;
            assert(false) by (nonlinear_arith)
                requires c0 == n * kd - kn * d && n <= 0 && kd > 0 && kn < 0 && d < 0 && c0 >= 0;
        }
    }
}

/// Mirror of the upper bound: if both endpoint values are at least the
/// constant, the value at every interior point is too.  Endpoint infinities
/// are only admitted for positive constants.
proof fn lemma_hom_lower(nx: int, n: int, dx: int, d: int, kn: int, kd: int, tp: int, tq: int)
    requires
        0 < tp < tq,
        kd > 0,
        amen(nx, n),
        amen(dx, d),
        non_zero(dx, d),
        non_zero(n, d),
        non_zero(nx + n, dx + d),
        ext_le(kn, kd, n, d),
        ext_le(kn, kd, nx + n, dx + d),
        d == 0 ==> kn > 0,
        dx + d == 0 ==> kn > 0,
    ensures
        av(dx, d, tp, tq) != 0,
        hom_cmp(nx, n, dx, d, kn, kd, tp, tq) >= 0,
        !(ext_eq(n, d, kn, kd) && ext_eq(nx + n, dx + d, kn, kd))
            ==> hom_cmp(nx, n, dx, d, kn, kd, tp, tq) > 0,
{
    let d1 = dx + d;
    let c0 = n * kd - kn * d;
    let c1 = (nx + n) * kd - kn * d1;
    let nn = av(nx, n, tp, tq);
    let dd = av(dx, d, tp, tq);
    let cv = nn * kd - kn * dd;
    lemma_affine_sign(dx, d, tp, tq);
    h_decomp(nx, n, dx, d, kn, kd, tp, tq);
    assert(cv == tp * c1 + (tq - tp) * c0);
    assert(dd == tp * d1 + (tq - tp) * d);
    h_le_k(n, d, kn, kd);
    h_le_k(nx + n, d1, kn, kd);
    if d != 0 && d1 != 0 {
        assert(sgn(d) == sgn(d1));
        if d > 0 {
            assert(c0 >= 0 && c1 >= 0) by (nonlinear_arith)
                requires d > 0 && d1 > 0 && c0 * d >= 0 && c1 * d1 >= 0;
            assert(cv >= 0 && (!(c0 == 0 && c1 == 0) ==> cv > 0)) by (nonlinear_arith)
                requires cv == tp * c1 + (tq - tp) * c0 && c0 >= 0 && c1 >= 0 && 0 < tp < tq;
            assert(dd > 0) by (nonlinear_arith)
                requires dd == tp * d1 + (tq - tp) * d && d > 0 && d1 > 0 && 0 < tp < tq;
            assert(cv * dd >= 0 && (cv > 0 ==> cv * dd > 0)) by (nonlinear_arith)
                requires cv >= 0 && dd > 0;
        } else {
            assert(c0 <= 0 && c1 <= 0) by (nonlinear_arith)
                requires d < 0 && d1 < 0 && c0 * d >= 0 && c1 * d1 >= 0;
            assert(cv <= 0 && (!(c0 == 0 && c1 == 0) ==> cv < 0)) by (nonlinear_arith)
                requires cv == tp * c1 + (tq - tp) * c0 && c0 <= 0 && c1 <= 0 && 0 < tp < tq;
            assert(dd < 0) by (nonlinear_arith)
                requires dd == tp * d1 + (tq - tp) * d && d < 0 && d1 < 0 && 0 < tp < tq;
            assert(cv * dd >= 0 && (cv < 0 ==> cv * dd > 0)) by (nonlinear_arith)
                requires cv <= 0 && dd < 0;
        }
    } else if d == 0 {
        assert(n > 0 && dx != 0 && d1 == dx && kn > 0);
        assert(nx + n >= 0);
        assert(c0 > 0) by (nonlinear_arith)
            requires n > 0 && kd > 0 && c0 == n * kd - kn * 0 && kn * 0 == 0;
        if dx > 0 {
            assert(c1 >= 0) by (nonlinear_arith)
                requires dx > 0 && c1 * dx >= 0;
            assert(cv > 0) by (nonlinear_arith)
                requires cv == tp * c1 + (tq - tp) * c0 && c1 >= 0 && c0 > 0 && 0 < tp < tq;
            assert(dd > 0) by (nonlinear_arith)
                requires dd == tp * d1 + (tq - tp) * 0 && d1 == dx && dx > 0 && tp > 0
                    && (tq - tp) * 0 == 0;
            assert(cv * dd > 0) by (nonlinear_arith)
                requires cv > 0 && dd > 0;
        } else {
            assert(c1 <= 0) by (nonlinear_arith)
                requires dx < 0 && c1 * dx >= 0;
            assert(false) by (nonlinear_arith)
                requires c1 == (nx + n) * kd - kn * dx && nx + n >= 0 && kd > 0 && kn > 0
                    && dx < 0 && c1 <= 0;
        }
    } else {
        assert(d1 == 0 && nx + n > 0 && d != 0 && kn > 0);
        assert(n >= 0);
        assert(c1 > 0) by (nonlinear_arith)
            requires nx + n > 0 && kd > 0 && c1 == (nx + n) * kd - kn * 0 && kn * 0 == 0;
        if d > 0 {
            assert(c0 >= 0) by (nonlinear_arith)
                requires d > 0 && c0 * d >= 0;
            assert(cv > 0) by (nonlinear_arith)
                requires cv == tp * c1 + (tq - tp) * c0 && c0 >= 0 && c1 > 0 && 0 < tp < tq;
            assert(dd > 0) by (nonlinear_arith)
                requires dd == tp * 0 + (tq - tp) * d && d > 0 && tq - tp > 0 && tp * 0 == 0;
            assert(cv * dd > 0) by (nonlinear_arith)
                requires cv > 0 && dd > 0;
        } else {
            assert(c0 <= 0) by (nonlinear_arith)
                requires d < 0 && c0 * d >= 0;
            assert(false) by (nonlinear_arith)
                requires c0 == n * kd - kn * d && n >= 0 && kd > 0 && kn > 0 && d < 0 && c0 <= 0;
        }
    }
}

/// If the two endpoint values agree, the transform is constant over the
/// interval: the value at every interior point equals the endpoint value.
proof fn lemma_hom_const(nx: int, n: int, dx: int, d: int, tp: int, tq: int)
    requires
        0 < tp < tq,
        amen(dx, d),
        non_zero(dx, d),
        non_zero(n, d),
        non_zero(nx + n, dx + d),
        ext_eq(n, d, nx + n, dx + d),
    ensures
        d != 0,
        dx + d != 0,
        av(dx, d, tp, tq) != 0,
        av(nx, n, tp, tq) * d == n * av(dx, d, tp, tq),
{
    lemma_affine_sign(dx, d, tp, tq);
    assert(nx * d == n * dx) by (nonlinear_arith)
        requires n * (dx + d) == (nx + n) * d;
    h_const_identity(nx, n, dx, d, tp, tq);
    assert(tp * (nx * d - n * dx) == 0) by (nonlinear_arith)
        requires nx * d == n * dx;
}

proof fn h_const_identity(nx: int, n: int, dx: int, d: int, tp: int, tq: int)
    ensures
        av(nx, n, tp, tq) * d - n * av(dx, d, tp, tq) == tp * (nx * d - n * dx),
{
    broadcast use vstd::arithmetic::mul::group_mul_properties;
}


/// A well-formed transform denotes a value strictly inside (0,1), and its
/// denominator form is not identically zero.
pub proof fn lemma_homographic_val(h: Homographic)
    requires
        h.wf(),
    ensures
        0 < h.vn() < h.vd(),
    decreases h,
{
    crate::lemma_clog_val(h.x);
    let p = h.x.vn();
    let q = h.x.vd();
    assert(hom_ok(h.nx as int, h.n as int, h.dx as int, h.d as int, p, q));
    h_val_pos(av(h.nx as int, h.n as int, p, q), av(h.dx as int, h.d as int, p, q));
}

/// A one-variable transform over an inner stream.
pub struct Homographic {
    x: Clog,
    nx: isize,
    n: isize,
    dx: isize,
    d: isize,
}

impl Homographic {
    /// Structural invariant: the inner stream is well formed and the primed
    /// transform maps the open unit interval into itself.
    pub closed spec fn wf(self) -> bool
        decreases self,
    {
        self.x.wf() && hom_inv(self.nx as int, self.n as int, self.dx as int, self.d as int)
    }

    /// The inner stream is in the value model.
    pub closed spec fn modeled_inner(self) -> bool
        decreases self,
    {
        self.x.modeled()
    }

    /// Numerator of the transform's value at the inner stream's value,
    /// re-signed to a positive denominator.
    pub closed spec fn vn(self) -> int
        decreases self,
    {
        let nn = av(self.nx as int, self.n as int, self.x.vn(), self.x.vd());
        let dd = av(self.dx as int, self.d as int, self.x.vn(), self.x.vd());
        if dd < 0 { -nn } else { nn }
    }

    /// Denominator of the transform's value at the inner stream's value.
    pub closed spec fn vd(self) -> int
        decreases self,
    {
        let dd = av(self.dx as int, self.d as int, self.x.vn(), self.x.vd());
        if dd < 0 { -dd } else { dd }
    }

    /// Nesting depth below this transform.
    pub closed spec fn height(self) -> nat
        decreases self,
    {
        self.x.height() + 1
    }

    /// The domain test of one singularity: the affine form `mx·t + m` keeps
    /// one sign over the open unit interval.
    fn is_domain_amenable(mx: isize, m: isize) -> (r: bool)
        ensures
            r == amen(mx as int, m as int),
    {
        let s2: i128 = (mx as i128) + (m as i128);
        m == 0 || s2 == 0 || ((m > 0) == (s2 > 0))
    }

    fn is_pole_outside_domain(&self) -> (r: bool)
        ensures
            r == amen(self.dx as int, self.d as int),
    {
        Homographic::is_domain_amenable(self.dx, self.d)
    }

    fn is_zero_outside_domain(&self) -> (r: bool)
        ensures
            r == amen(self.nx as int, self.n as int),
    {
        Homographic::is_domain_amenable(self.nx, self.n)
    }

    fn are_singularities_outside_domain(&self) -> (r: bool)
        ensures
            r == (amen(self.nx as int, self.n as int) && amen(self.dx as int, self.d as int)),
    {
        self.is_zero_outside_domain() && self.is_pole_outside_domain()
    }

    /// The exact endpoint value of the transform at zero.
    fn value_at_zero(&self) -> (r: (i128, i128))
        ensures
            r.0 as int == self.n as int,
            r.1 as int == self.d as int,
    {
        (self.n as i128, self.d as i128)
    }

    /// The exact endpoint value of the transform at one.
    fn value_at_one(&self) -> (r: (i128, i128))
        ensures
            r.0 as int == self.nx as int + self.n as int,
            r.1 as int == self.dx as int + self.d as int,
    {
        ((self.nx as i128) + (self.n as i128), (self.dx as i128) + (self.d as i128))
    }

    /// The exact value of the transform at one half, halved while both
    /// stream coefficients are even, fitted back into the coefficient range.
    fn value_at_one_half(&self) -> (r: Result<(isize, isize), Error>)
        ensures
            match r {
                Ok((a, b)) => scaled(a as int, b as int,
                    av(self.nx as int, self.n as int, 1, 2),
                    av(self.dx as int, self.d as int, 1, 2)),
                Err(e) => e == Error::CoefficientOverflow,
            },
    {
        if support::is_even(self.nx) && support::is_even(self.dx) {
            let a: i128 = (self.n as i128) + (support::half(self.nx) as i128);
            let b: i128 = (self.d as i128) + (support::half(self.dx) as i128);
            let a = match support::fit(a) { Ok(v) => v, Err(e) => { return Err(e); } };
            let b = match support::fit(b) { Ok(v) => v, Err(e) => { return Err(e); } };
            proof {
                h_half_scaled(a as int, b as int,
                    av(self.nx as int, self.n as int, 1, 2),
                    av(self.dx as int, self.d as int, 1, 2));
            }
            Ok((a, b))
        } else {
            let a: i128 = (self.nx as i128) + 2 * (self.n as i128);
            let b: i128 = (self.dx as i128) + 2 * (self.d as i128);
            let a = match support::fit(a) { Ok(v) => v, Err(e) => { return Err(e); } };
            let b = match support::fit(b) { Ok(v) => v, Err(e) => { return Err(e); } };
            proof {
                h_half_scaled(a as int, b as int,
                    av(self.nx as int, self.n as int, 1, 2),
                    av(self.dx as int, self.d as int, 1, 2));
            }
            Ok((a, b))
        }
    }

    /// The range of the two endpoint values: nothing to compare when an
    /// endpoint is the undefined pair or the endpoints are opposite
    /// infinities, a fatal error when an endpoint leaves the coefficient
    /// range.
    fn image_extremes(&self) -> (r: Result<Option<(i128, i128, i128, i128)>, Error>)
        ensures
            ({
                let f0n = self.n as int;
                let f0d = self.d as int;
                let f1n = self.nx as int + self.n as int;
                let f1d = self.dx as int + self.d as int;
                match r {
                    Ok(Some((a, b, c, dd))) => {
                        &&& support::in_rng(a as int) && support::in_rng(b as int)
                        &&& support::in_rng(c as int) && support::in_rng(dd as int)
                        &&& non_zero(a as int, b as int) && non_zero(c as int, dd as int)
                        &&& non_zero(f0n, f0d) && non_zero(f1n, f1d)
                        &&& ext_le(a as int, b as int, f0n, f0d)
                        &&& ext_le(a as int, b as int, f1n, f1d)
                        &&& ext_le(f0n, f0d, c as int, dd as int)
                        &&& ext_le(f1n, f1d, c as int, dd as int)
                        &&& (ext_eq(f0n, f0d, f1n, f1d) ==> a == c && b == dd)
                    },
                    Ok(None) => true,
                    Err(e) => e == Error::CoefficientOverflow,
                }
            }),
    {
        let (n0, d0) = self.value_at_zero();
        if n0 == 0 && d0 == 0 {
            return Ok(None);
        }
        let (n1, d1) = self.value_at_one();
        if n1 < (isize::MIN as i128) || n1 > (isize::MAX as i128)
            || d1 < (isize::MIN as i128) || d1 > (isize::MAX as i128) {
            return Err(Error::CoefficientOverflow);
        }
        if n1 == 0 && d1 == 0 {
            return Ok(None);
        }
        if d0 == 0 && d1 == 0 && ((n0 > 0) != (n1 > 0)) {
            return Ok(None);
        }
        proof {
            h_seed_le(n0 as int, d0 as int);
            assert(isize::MIN as int >= -0x8000_0000_0000_0000
                && isize::MAX as int <= 0x7fff_ffff_ffff_ffff);
            assert(support::in_rng(n0 as int) && support::in_rng(d0 as int)
                && support::in_rng(n1 as int) && support::in_rng(d1 as int));
            assert(((n0 as int) > 0) == ((n1 as int) > 0) && (n0 as int) != 0 && (n1 as int) != 0
                ==> (n0 as int) * (n1 as int) >= 0) by (nonlinear_arith);
        }
        Ok(Some(support::updated_range(n0, d0, n0, d0, n1, d1)))
    }

    /// Fold the reciprocate-and-negate output transform into the
    /// coefficients and name the primer.
    fn ground(&mut self) -> (r: Result<Primer, Error>)
        ensures
            final(self).x == old(self).x,
            match r {
                Ok(p) => p == Primer::Ground
                    && final(self).nx as int == -(old(self).dx as int)
                    && final(self).n as int == -(old(self).d as int)
                    && final(self).dx == old(self).nx
                    && final(self).d == old(self).n,
                Err(e) => *final(self) == *old(self) && e == Error::CoefficientOverflow,
            },
    {
        let ndx = match support::csub(0, self.dx) { Ok(v) => v, Err(e) => { return Err(e); } };
        let nd = match support::csub(0, self.d) { Ok(v) => v, Err(e) => { return Err(e); } };
        self.dx = self.nx;
        self.d = self.n;
        self.nx = ndx;
        self.n = nd;
        Ok(Primer::Ground)
    }

    /// Fold the negate output transform into the coefficients.
    fn reflect(&mut self) -> (r: Result<Primer, Error>)
        ensures
            final(self).x == old(self).x,
            match r {
                Ok(p) => p == Primer::Reflect
                    && final(self).nx as int == -(old(self).nx as int)
                    && final(self).n as int == -(old(self).n as int)
                    && final(self).dx == old(self).dx
                    && final(self).d == old(self).d,
                Err(e) => *final(self) == *old(self) && e == Error::CoefficientOverflow,
            },
    {
        let nnx = match support::csub(0, self.nx) { Ok(v) => v, Err(e) => { return Err(e); } };
        let nn = match support::csub(0, self.n) { Ok(v) => v, Err(e) => { return Err(e); } };
        self.nx = nnx;
        self.n = nn;
        Ok(Primer::Reflect)
    }

    /// Fold the reciprocate output transform into the coefficients.
    fn turn(&mut self) -> (r: Primer)
        ensures
            final(self).x == old(self).x,
            r == Primer::Turn,
            final(self).nx == old(self).dx,
            final(self).n == old(self).d,
            final(self).dx == old(self).nx,
            final(self).d == old(self).n,
    {
        let t = self.nx;
        self.nx = self.dx;
        self.dx = t;
        let t2 = self.n;
        self.n = self.d;
        self.d = t2;
        Primer::Turn
    }

    /// Decide the output primer from the image of the domain, or report
    /// that more input is needed first.  On a decision the corresponding
    /// output transform is already folded in, and the whole image of the
    /// domain is pinned to the region the primer names.
    fn primer_egest(&mut self) -> (r: Result<Option<Option<Primer>>, Error>)
        requires
            amen(old(self).nx as int, old(self).n as int),
            amen(old(self).dx as int, old(self).d as int),
            non_zero(old(self).dx as int, old(self).d as int),
        ensures
            final(self).x == old(self).x,
            ({
                let nx0 = old(self).nx as int;
                let n0 = old(self).n as int;
                let dx0 = old(self).dx as int;
                let d0 = old(self).d as int;
                match r {
                    Ok(Some(pr)) => match pr {
                        None => *final(self) == *old(self)
                            && hom_above(nx0, n0, dx0, d0, 0, 1)
                            && hom_below(nx0, n0, dx0, d0, 1, 1),
                        Some(Primer::Turn) => final(self).nx == old(self).dx
                            && final(self).n == old(self).d
                            && final(self).dx == old(self).nx
                            && final(self).d == old(self).n
                            && hom_above(nx0, n0, dx0, d0, 1, 1),
                        Some(Primer::Reflect) => final(self).nx as int == -nx0
                            && final(self).n as int == -n0
                            && final(self).dx == old(self).dx
                            && final(self).d == old(self).d
                            && hom_above(nx0, n0, dx0, d0, -1, 1)
                            && hom_below(nx0, n0, dx0, d0, 0, 1),
                        Some(Primer::Ground) => final(self).nx as int == -dx0
                            && final(self).n as int == -d0
                            && final(self).dx == old(self).nx
                            && final(self).d == old(self).n
                            && hom_below(nx0, n0, dx0, d0, -1, 1),
                    },
                    Ok(None) => *final(self) == *old(self),
                    Err(e) => e == Error::CoefficientOverflow,
                }
            }),
    {
        let ghost nx0 = self.nx as int;
        let ghost n0 = self.n as int;
        let ghost dx0 = self.dx as int;
        let ghost d0 = self.d as int;
        let ex = match self.image_extremes() {
            Ok(e) => e,
            Err(e) => { return Err(e); },
        };
        let (nmin, dmin, nmax, dmax) = match ex {
            Some(t) => t,
            None => { return Ok(None); },
        };
        if support::are_same(nmin, dmin, nmax, dmax) && support::is_special(nmin, dmin) {
            return Ok(None);
        }
        let ghost f0n = n0;
        let ghost f0d = d0;
        let ghost f1n = nx0 + n0;
        let ghost f1d = dx0 + d0;
        if !support::greater_than_minus_one(nmax, dmax) {
            proof {
                h_branch_one_sided(nx0, n0, dx0, d0, -1,
                    nmin as int, dmin as int, nmax as int, dmax as int, false);
            }
            match self.ground() {
                Ok(p) => Ok(Some(Some(p))),
                Err(e) => Err(e),
            }
        } else if !support::less_than_one(nmin, dmin) {
            proof {
                h_branch_one_sided(nx0, n0, dx0, d0, 1,
                    nmin as int, dmin as int, nmax as int, dmax as int, true);
            }
            Ok(Some(Some(self.turn())))
        } else if !support::less_than_minus_one(nmin, dmin) && !support::greater_than_zero(nmax, dmax) {
            proof {
                h_branch_two_sided(nx0, n0, dx0, d0, -1, 0,
                    nmin as int, dmin as int, nmax as int, dmax as int);
            }
            match self.reflect() {
                Ok(p) => Ok(Some(Some(p))),
                Err(e) => Err(e),
            }
        } else if !support::less_than_zero(nmin, dmin) && !support::greater_than_one(nmax, dmax) {
            proof {
                h_branch_two_sided(nx0, n0, dx0, d0, 0, 1,
                    nmin as int, dmin as int, nmax as int, dmax as int);
            }
            Ok(Some(None))
        } else {
            Ok(None)
        }
    }

    /// Fold one halving of the inner value into the coefficients.
    fn ingest_amplify(&mut self) -> (r: Result<(), Error>)
        ensures
            final(self).x == old(self).x,
            match r {
                Ok(_) => (2 * (final(self).nx as int) == old(self).nx as int
                        && final(self).n == old(self).n
                        && 2 * (final(self).dx as int) == old(self).dx as int
                        && final(self).d == old(self).d)
                    || (final(self).nx == old(self).nx
                        && final(self).n as int == 2 * (old(self).n as int)
                        && final(self).dx == old(self).dx
                        && final(self).d as int == 2 * (old(self).d as int)),
                Err(e) => e == Error::CoefficientOverflow,
            },
    {
        if !support::is_even(self.nx) || !support::is_even(self.dx) {
            let nn = match support::cdbl(self.n) { Ok(v) => v, Err(e) => { return Err(e); } };
            let nd = match support::cdbl(self.d) { Ok(v) => v, Err(e) => { return Err(e); } };
            self.n = nn;
            self.d = nd;
        } else {
            self.nx = support::half(self.nx);
            self.dx = support::half(self.dx);
        }
        Ok(())
    }

    /// Fold one reciprocate-and-subtract step of the inner value into the
    /// coefficients.
    fn ingest_uncover(&mut self) -> (r: Result<(), Error>)
        ensures
            final(self).x == old(self).x,
            match r {
                Ok(_) => final(self).nx == old(self).n
                    && final(self).n as int == old(self).nx as int + old(self).n as int
                    && final(self).dx == old(self).d
                    && final(self).d as int == old(self).dx as int + old(self).d as int,
                Err(e) => e == Error::CoefficientOverflow,
            },
    {
        let snx = match support::cadd(self.nx, self.n) { Ok(v) => v, Err(e) => { return Err(e); } };
        let sdx = match support::cadd(self.dx, self.d) { Ok(v) => v, Err(e) => { return Err(e); } };
        self.nx = self.n;
        self.n = snx;
        self.dx = self.d;
        self.d = sdx;
        Ok(())
    }

    /// Emit a halving of the output value.
    fn amplify(&mut self) -> (r: Result<Reduction, Error>)
        ensures
            final(self).x == old(self).x,
            match r {
                Ok(s) => s == Reduction::Amplify
                    && ((final(self).nx == old(self).nx
                            && final(self).n == old(self).n
                            && 2 * (final(self).dx as int) == old(self).dx as int
                            && 2 * (final(self).d as int) == old(self).d as int)
                        || (final(self).nx as int == 2 * (old(self).nx as int)
                            && final(self).n as int == 2 * (old(self).n as int)
                            && final(self).dx == old(self).dx
                            && final(self).d == old(self).d)),
                Err(e) => e == Error::CoefficientOverflow,
            },
    {
        if !support::is_even(self.dx) || !support::is_even(self.d) {
            let nnx = match support::cdbl(self.nx) { Ok(v) => v, Err(e) => { return Err(e); } };
            let nn = match support::cdbl(self.n) { Ok(v) => v, Err(e) => { return Err(e); } };
            self.nx = nnx;
            self.n = nn;
        } else {
            self.dx = support::half(self.dx);
            self.d = support::half(self.d);
        }
        Ok(Reduction::Amplify)
    }

    /// Emit a reciprocate-and-subtract step of the output value.
    fn uncover(&mut self) -> (r: Result<Reduction, Error>)
        ensures
            final(self).x == old(self).x,
            match r {
                Ok(s) => s == Reduction::Uncover
                    && final(self).nx as int == old(self).dx as int - old(self).nx as int
                    && final(self).n as int == old(self).d as int - old(self).n as int
                    && final(self).dx == old(self).nx
                    && final(self).d == old(self).n,
                Err(e) => e == Error::CoefficientOverflow,
            },
    {
        let ndx = match support::csub(self.dx, self.nx) { Ok(v) => v, Err(e) => { return Err(e); } };
        let nd = match support::csub(self.d, self.n) { Ok(v) => v, Err(e) => { return Err(e); } };
        self.dx = self.nx;
        self.d = self.n;
        self.nx = ndx;
        self.n = nd;
        Ok(Reduction::Uncover)
    }

    /// Decide the next output symbol from the image of the domain against
    /// one half, or report that more input is needed first.  On a symbol
    /// the output transform is already folded in; no symbol with a decided
    /// state means the whole image is exactly one half.
    fn reduction_egest(&mut self) -> (r: Result<Option<Option<Reduction>>, Error>)
        requires
            amen(old(self).nx as int, old(self).n as int),
            amen(old(self).dx as int, old(self).d as int),
            non_zero(old(self).dx as int, old(self).d as int),
            hom_inv(old(self).nx as int, old(self).n as int, old(self).dx as int, old(self).d as int),
        ensures
            final(self).x == old(self).x,
            ({
                let nx0 = old(self).nx as int;
                let n0 = old(self).n as int;
                let dx0 = old(self).dx as int;
                let d0 = old(self).d as int;
                match r {
                    Ok(Some(so)) => match so {
                        None => *final(self) == *old(self)
                            && (forall|tp: int, tq: int| 0 < tp < tq
                                ==> 2 * #[trigger] av(nx0, n0, tp, tq) == av(dx0, d0, tp, tq)),
                        Some(Reduction::Amplify) => hom_below(nx0, n0, dx0, d0, 1, 2)
                            && ((final(self).nx == old(self).nx
                                    && final(self).n == old(self).n
                                    && 2 * (final(self).dx as int) == dx0
                                    && 2 * (final(self).d as int) == d0)
                                || (final(self).nx as int == 2 * nx0
                                    && final(self).n as int == 2 * n0
                                    && final(self).dx == old(self).dx
                                    && final(self).d == old(self).d)),
                        Some(Reduction::Uncover) => hom_above(nx0, n0, dx0, d0, 1, 2)
                            && final(self).nx as int == dx0 - nx0
                            && final(self).n as int == d0 - n0
                            && final(self).dx == old(self).nx
                            && final(self).d == old(self).n,
                    },
                    Ok(None) => *final(self) == *old(self),
                    Err(e) => e == Error::CoefficientOverflow,
                }
            }),
    {
        let ghost nx0 = self.nx as int;
        let ghost n0 = self.n as int;
        let ghost dx0 = self.dx as int;
        let ghost d0 = self.d as int;
        let ex = match self.image_extremes() {
            Ok(e) => e,
            Err(e) => { return Err(e); },
        };
        let (nmin, dmin, nmax, dmax) = match ex {
            Some(t) => t,
            None => { return Ok(None); },
        };
        if support::equal_to_one_half(nmin, dmin) && support::equal_to_one_half(nmax, dmax) {
            proof {
                h_branch_half(nx0, n0, dx0, d0,
                    nmin as int, dmin as int, nmax as int, dmax as int);
            }
            return Ok(Some(None));
        }
        if !support::greater_than_one_half(nmax, dmax) {
            proof {
                h_branch_below_half(nx0, n0, dx0, d0,
                    nmin as int, dmin as int, nmax as int, dmax as int);
            }
            match self.amplify() {
                Ok(s) => Ok(Some(Some(s))),
                Err(e) => Err(e),
            }
        } else if !support::less_than_one_half(nmin, dmin) {
            proof {
                h_branch_above_half(nx0, n0, dx0, d0,
                    nmin as int, dmin as int, nmax as int, dmax as int);
            }
            match self.uncover() {
                Ok(s) => Ok(Some(Some(s))),
                Err(e) => Err(e),
            }
        } else {
            Ok(None)
        }
    }

    /// Ingest one symbol from the inner stream, folding it into the
    /// coefficients; at exhaustion hand back the exact value of the
    /// transform at one half.  Either way the denoted value is kept, up to
    /// a positive factor.
    fn reduction_ingest(&mut self) -> (r: Result<Option<(isize, isize)>, Error>)
        requires
            old(self).x.wf(),
            old(self).x.modeled(),
        ensures
            ({
                let p0 = av(old(self).nx as int, old(self).n as int, old(self).x.vn(), old(self).x.vd());
                let q0 = av(old(self).dx as int, old(self).d as int, old(self).x.vn(), old(self).x.vd());
                match r {
                    Ok(None) => final(self).x.wf() && final(self).x.modeled()
                        && final(self).x.height() <= old(self).x.height()
                        && (old(self).x.direct() ==> final(self).x.direct())
                        && cl_len(final(self).x.vn(), final(self).x.vd())
                            < cl_len(old(self).x.vn(), old(self).x.vd())
                        && (non_zero(old(self).dx as int, old(self).d as int)
                            ==> non_zero(final(self).dx as int, final(self).d as int))
                        && (hom_inv(old(self).nx as int, old(self).n as int, old(self).dx as int, old(self).d as int)
                            ==> hom_inv(final(self).nx as int, final(self).n as int, final(self).dx as int, final(self).d as int))
                        && scaled(
                            av(final(self).nx as int, final(self).n as int, final(self).x.vn(), final(self).x.vd()),
                            av(final(self).dx as int, final(self).d as int, final(self).x.vn(), final(self).x.vd()),
                            p0, q0),
                    Ok(Some((num, den))) => final(self).x.wf() && final(self).x.modeled()
                        && scaled(num as int, den as int, p0, q0),
                    Err(e) => e == Error::CoefficientOverflow,
                }
            }),
        decreases old(self).x.height() + 1, 4nat,
    {
        proof {
            lemma_clog_val(self.x);
        }
        let ghost bn = self.x.vn();
        let ghost bd = self.x.vd();
        let ghost cnx = self.nx as int;
        let ghost cn = self.n as int;
        let ghost cdx = self.dx as int;
        let ghost cd = self.d as int;
        let sym = match self.x.egest() {
            Ok(s) => s,
            Err(e) => { return Err(e); },
        };
        proof {
            lemma_clog_val(self.x);
            if sym is Some {
                crate::rat::lemma_cl_len_step(sym, bn, bd, self.x.vn(), self.x.vd());
            }
        }
        match sym {
            None => {
                let v = match self.value_at_one_half() {
                    Ok(v) => v,
                    Err(e) => { return Err(e); },
                };
                proof {
                    crate::rat::lemma_fold_exhausted(cnx, cn, cdx, cd, bn, bd);
                    lemma_scaled_trans(
                        v.0 as int, v.1 as int,
                        av(cnx, cn, 1, 2), av(cdx, cd, 1, 2),
                        av(cnx, cn, bn, bd), av(cdx, cd, bn, bd),
                    );
                }
                Ok(Some(v))
            },
            Some(Reduction::Amplify) => {
                match self.ingest_amplify() {
                    Ok(_) => {
                        proof {
                            lemma_fold_amplify(
                                cnx, cn, cdx, cd,
                                self.nx as int, self.n as int, self.dx as int, self.d as int,
                                bn, bd, self.x.vn(), self.x.vd(),
                            );
                            if hom_inv(cnx, cn, cdx, cd) {
                                assert forall|tp: int, tq: int| 0 < tp < tq
                                    implies #[trigger] hom_ok(self.nx as int, self.n as int, self.dx as int, self.d as int, tp, tq) by {
                                    assert(hom_ok(cnx, cn, cdx, cd, tp, 2 * tq));
                                    h_ok_ingest_amp(cnx, cn, cdx, cd,
                                        self.nx as int, self.n as int, self.dx as int, self.d as int, tp, tq);
                                }
                            }
                        }
                        Ok(None)
                    },
                    Err(e) => Err(e),
                }
            },
            Some(Reduction::Uncover) => {
                match self.ingest_uncover() {
                    Ok(_) => {
                        proof {
                            lemma_fold_uncover(
                                cnx, cn, cdx, cd,
                                self.nx as int, self.n as int, self.dx as int, self.d as int,
                                bn, bd, self.x.vn(), self.x.vd(),
                            );
                            if hom_inv(cnx, cn, cdx, cd) {
                                assert forall|tp: int, tq: int| 0 < tp < tq
                                    implies #[trigger] hom_ok(self.nx as int, self.n as int, self.dx as int, self.d as int, tp, tq) by {
                                    assert(hom_ok(cnx, cn, cdx, cd, tq, tp + tq));
                                    h_ok_ingest_unc(cnx, cn, cdx, cd,
                                        self.nx as int, self.n as int, self.dx as int, self.d as int, tp, tq);
                                }
                            }
                        }
                        Ok(None)
                    },
                    Err(e) => Err(e),
                }
            },
        }
    }

    /// Prime the transform: ingest until the image of the domain settles in
    /// one region of the line, emitting that region's primer, or collapse
    /// to a plain fraction when the inner stream exhausts.  The result
    /// denotes exactly the transform's value at the inner stream's value.
    #[verifier::loop_isolation(false)]
    fn prime(self) -> (r: Result<Number, Error>)
        requires
            self.x.wf(),
            self.x.modeled(),
        ensures
            ({
                let p0 = av(self.nx as int, self.n as int, self.x.vn(), self.x.vd());
                let q0 = av(self.dx as int, self.d as int, self.x.vn(), self.x.vd());
                &&& (p0 == 0 && q0 == 0 ==> r is Err)
                &&& match r {
                    Ok(v) => v.wf() && v.modeled() && v.vd() > 0 && q0 != 0
                        && v.height() <= self.x.height() + 2 && v.strategy_rank() <= 1
                        && v.vn() * q0 == p0 * v.vd(),
                    Err(e) => (e == Error::DivisionByZero ==> q0 == 0)
                        && (e is DivisionByZero || e is CoefficientOverflow),
                }
            }),
        decreases self.x.height() + 1, 5nat,
    {
        proof {
            lemma_clog_val(self.x);
        }
        let ghost p0 = av(self.nx as int, self.n as int, self.x.vn(), self.x.vd());
        let ghost q0 = av(self.dx as int, self.d as int, self.x.vn(), self.x.vd());
        if self.dx == 0 && self.d == 0 {
            proof {
                assert(q0 == 0) by (nonlinear_arith)
                    requires q0 == 0 * self.x.vn() + 0 * self.x.vd();
            }
            return Err(Error::DivisionByZero);
        }
        let mut h = self;
        loop
            invariant
                h.x.wf(),
                h.x.modeled(),
                h.x.height() <= self.x.height(),
                non_zero(h.dx as int, h.d as int),
                scaled(
                    av(h.nx as int, h.n as int, h.x.vn(), h.x.vd()),
                    av(h.dx as int, h.d as int, h.x.vn(), h.x.vd()),
                    p0, q0,
                ),
            decreases cl_len(h.x.vn(), h.x.vd()),
        {
            proof {
                lemma_clog_val(h.x);
            }
            let ghost xvn = h.x.vn();
            let ghost xvd = h.x.vd();
            let ghost cnx = h.nx as int;
            let ghost cn = h.n as int;
            let ghost cdx = h.dx as int;
            let ghost cd = h.d as int;
            let ghost aa = av(cnx, cn, xvn, xvd);
            let ghost bb = av(cdx, cd, xvn, xvd);
            if h.are_singularities_outside_domain() {
                let decided = match h.primer_egest() {
                    Ok(dd) => dd,
                    Err(e) => { return Err(e); },
                };
                if let Some(primer) = decided {
                    proof {
                        match primer {
                            None => {
                                assert forall|tp: int, tq: int| 0 < tp < tq
                                    implies #[trigger] hom_ok(h.nx as int, h.n as int, h.dx as int, h.d as int, tp, tq) by {
                                    assert(hom_cmp(cnx, cn, cdx, cd, 0, 1, tp, tq) > 0);
                                    assert(hom_cmp(cnx, cn, cdx, cd, 1, 1, tp, tq) < 0);
                                    h_ok_none(cnx, cn, cdx, cd, tp, tq);
                                }
                                assert(hom_cmp(cnx, cn, cdx, cd, 0, 1, xvn, xvd) > 0);
                                assert(aa * bb > 0 && bb != 0) by (nonlinear_arith)
                                    requires (aa * 1 - 0 * bb) * bb > 0;
                                h_map_none(aa, bb);
                            },
                            Some(Primer::Turn) => {
                                assert forall|tp: int, tq: int| 0 < tp < tq
                                    implies #[trigger] hom_ok(h.nx as int, h.n as int, h.dx as int, h.d as int, tp, tq) by {
                                    assert(hom_cmp(cnx, cn, cdx, cd, 1, 1, tp, tq) > 0);
                                    h_ok_turn(cnx, cn, cdx, cd, tp, tq);
                                }
                                assert(hom_cmp(cnx, cn, cdx, cd, 1, 1, xvn, xvd) > 0);
                                assert(bb != 0 && aa != 0) by (nonlinear_arith)
                                    requires (aa * 1 - 1 * bb) * bb > 0;
                                h_map_turn(aa, bb);
                            },
                            Some(Primer::Reflect) => {
                                assert forall|tp: int, tq: int| 0 < tp < tq
                                    implies #[trigger] hom_ok(h.nx as int, h.n as int, h.dx as int, h.d as int, tp, tq) by {
                                    assert(hom_cmp(cnx, cn, cdx, cd, -1, 1, tp, tq) > 0);
                                    assert(hom_cmp(cnx, cn, cdx, cd, 0, 1, tp, tq) < 0);
                                    h_ok_reflect(cnx, cn, cdx, cd, tp, tq);
                                }
                                assert(hom_cmp(cnx, cn, cdx, cd, 0, 1, xvn, xvd) < 0);
                                assert(aa * bb < 0 && bb != 0) by (nonlinear_arith)
                                    requires (aa * 1 - 0 * bb) * bb < 0;
                                h_map_reflect(aa, bb);
                            },
                            Some(Primer::Ground) => {
                                assert forall|tp: int, tq: int| 0 < tp < tq
                                    implies #[trigger] hom_ok(h.nx as int, h.n as int, h.dx as int, h.d as int, tp, tq) by {
                                    assert(hom_cmp(cnx, cn, cdx, cd, -1, 1, tp, tq) < 0);
                                    h_ok_ground(cnx, cn, cdx, cd, tp, tq);
                                }
                                assert(hom_cmp(cnx, cn, cdx, cd, -1, 1, xvn, xvd) < 0);
                                assert(bb != 0 && aa != 0) by (nonlinear_arith)
                                    requires (aa * 1 - (-1) * bb) * bb < 0;
                                h_map_ground(aa, bb);
                            },
                        }
                        assert(h.x.vn() == xvn && h.x.vd() == xvd);
                        match primer {
                            None => {
                                assert(av(h.nx as int, h.n as int, xvn, xvd) == aa
                                    && av(h.dx as int, h.d as int, xvn, xvd) == bb);
                            },
                            Some(Primer::Turn) => {
                                assert(av(h.nx as int, h.n as int, xvn, xvd) == bb
                                    && av(h.dx as int, h.d as int, xvn, xvd) == aa);
                            },
                            Some(Primer::Reflect) => {
                                assert(av(h.nx as int, h.n as int, xvn, xvd) == -aa) by (nonlinear_arith)
                                    requires h.nx as int == -cnx && h.n as int == -cn
                                        && aa == cnx * xvn + cn * xvd
                                        && av(h.nx as int, h.n as int, xvn, xvd)
                                            == (h.nx as int) * xvn + (h.n as int) * xvd;
                                assert(av(h.dx as int, h.d as int, xvn, xvd) == bb);
                            },
                            Some(Primer::Ground) => {
                                assert(av(h.nx as int, h.n as int, xvn, xvd) == -bb) by (nonlinear_arith)
                                    requires h.nx as int == -cdx && h.n as int == -cd
                                        && bb == cdx * xvn + cd * xvd
                                        && av(h.nx as int, h.n as int, xvn, xvd)
                                            == (h.nx as int) * xvn + (h.n as int) * xvd;
                                assert(av(h.dx as int, h.d as int, xvn, xvd) == aa);
                            },
                        }
                    }
                    let v = Number::Other(primer, Clog::from_strategy(
                        Strategy::Homographic(Box::new(h)),
                    ));
                    proof {
                        assert(v.wf());
                        assert(v.vn() * bb == aa * v.vd() && v.vd() > 0);
                        assert(aa != 0 && bb != 0);
                        assert(sgn(aa) == sgn(p0) && sgn(bb) == sgn(q0));
                        assert(p0 != 0 && q0 != 0);
                        h_val_transfer(v.vn(), v.vd(), aa, bb, p0, q0);
                    }
                    return Ok(v);
                }
            }
            match h.reduction_ingest() {
                Ok(Some((num, den))) => {
                    proof {
                        lemma_scaled_trans(num as int, den as int, aa, bb, p0, q0);
                    }
                    match Number::ratio(num, den) {
                        Ok(v) => {
                            proof {
                                h_num_val(v);
                                assert(den != 0 && sgn(den as int) == sgn(q0));
                                assert(q0 != 0);
                                h_val_transfer(v.vn(), v.vd(), num as int, den as int, p0, q0);
                            }
                            return Ok(v);
                        },
                        Err(e) => {
                            proof {
                                assert(sgn(den as int) == sgn(q0));
                            }
                            return Err(e);
                        },
                    }
                },
                Ok(None) => {
                    proof {
                        lemma_scaled_trans(
                            av(h.nx as int, h.n as int, h.x.vn(), h.x.vd()),
                            av(h.dx as int, h.d as int, h.x.vn(), h.x.vd()),
                            aa, bb, p0, q0,
                        );
                    }
                },
                Err(e) => { return Err(e); },
            }
        }
    }

    /// Pull the next output symbol, or hand off to the base strategy for
    /// the exact remaining fraction when the inner stream exhausts.  An
    /// emitted symbol relates the old and new denoted values exactly; a
    /// hand-off keeps the denoted value.
    #[verifier::loop_isolation(false)]
    pub(crate) fn egest(&mut self) -> (r: Result<Step, Error>)
        requires
            old(self).wf(),
            old(self).modeled_inner(),
        ensures
            match r {
                Ok(Step::Emit(s)) => final(self).wf() && final(self).modeled_inner()
                    && final(self).height() <= old(self).height()
                    && step_rel(s, old(self).vn(), old(self).vd(), final(self).vn(), final(self).vd()),
                Ok(Step::Become(st)) => st.wf() && st.modeled() && st is Ratio
                    && rat_eq(st.vn(), st.vd(), old(self).vn(), old(self).vd())
                    && st.vd() > 0,
                Err(e) => e == Error::CoefficientOverflow,
            },
        decreases old(self).height(), 8nat,
    {
        proof {
            lemma_homographic_val(*old(self));
        }
        loop
            invariant
                self.wf(),
                self.x.modeled(),
                self.x.height() <= old(self).x.height(),
                rat_eq(self.vn(), self.vd(), old(self).vn(), old(self).vd()),
            decreases cl_len(self.x.vn(), self.x.vd()),
        {
            proof {
                lemma_clog_val(self.x);
                lemma_homographic_val(*self);
            }
            let ghost xvn = self.x.vn();
            let ghost xvd = self.x.vd();
            let ghost cnx = self.nx as int;
            let ghost cn = self.n as int;
            let ghost cdx = self.dx as int;
            let ghost cd = self.d as int;
            let ghost aa = av(cnx, cn, xvn, xvd);
            let ghost bb = av(cdx, cd, xvn, xvd);
            let ghost cvn = self.vn();
            let ghost cvd = self.vd();
            proof {
                assert(hom_ok(cnx, cn, cdx, cd, 1, 2));
                assert(!(cdx == 0 && cd == 0)) by (nonlinear_arith)
                    requires av(cdx, cd, 1, 2) != 0 && av(cdx, cd, 1, 2) == cdx * 1 + cd * 2;
            }
            if self.are_singularities_outside_domain() {
                let decided = match self.reduction_egest() {
                    Ok(dd) => dd,
                    Err(e) => { return Err(e); },
                };
                if let Some(sym) = decided {
                    proof {
                        assert(hom_ok(cnx, cn, cdx, cd, xvn, xvd));
                        assert(self.x.vn() == xvn && self.x.vd() == xvd);
                        assert(cvn == crate::rat::pn(aa, bb) && cvd == crate::rat::pd(aa, bb));
                        match sym {
                            None => {
                                assert(2 * av(cnx, cn, xvn, xvd) == av(cdx, cd, xvn, xvd));
                                h_emit_half(aa, bb);
                            },
                            Some(Reduction::Amplify) => {
                                assert(hom_cmp(cnx, cn, cdx, cd, 1, 2, xvn, xvd) < 0);
                                assert((av(self.nx as int, self.n as int, xvn, xvd) == aa
                                        && 2 * av(self.dx as int, self.d as int, xvn, xvd) == bb)
                                    || (av(self.nx as int, self.n as int, xvn, xvd) == 2 * aa
                                        && av(self.dx as int, self.d as int, xvn, xvd) == bb))
                                    by (nonlinear_arith)
                                    requires
                                        aa == cnx * xvn + cn * xvd,
                                        bb == cdx * xvn + cd * xvd,
                                        av(self.nx as int, self.n as int, xvn, xvd)
                                            == (self.nx as int) * xvn + (self.n as int) * xvd,
                                        av(self.dx as int, self.d as int, xvn, xvd)
                                            == (self.dx as int) * xvn + (self.d as int) * xvd,
                                        (self.nx as int == cnx && self.n as int == cn
                                            && 2 * (self.dx as int) == cdx && 2 * (self.d as int) == cd)
                                        || (self.nx as int == 2 * cnx && self.n as int == 2 * cn
                                            && self.dx as int == cdx && self.d as int == cd);
                                h_emit_amp(aa, bb,
                                    av(self.nx as int, self.n as int, xvn, xvd),
                                    av(self.dx as int, self.d as int, xvn, xvd));
                                assert forall|tp: int, tq: int| 0 < tp < tq
                                    implies #[trigger] hom_ok(self.nx as int, self.n as int, self.dx as int, self.d as int, tp, tq) by {
                                    assert(hom_ok(cnx, cn, cdx, cd, tp, tq));
                                    assert(hom_cmp(cnx, cn, cdx, cd, 1, 2, tp, tq) < 0);
                                    h_ok_amp(cnx, cn, cdx, cd,
                                        self.nx as int, self.n as int, self.dx as int, self.d as int, tp, tq);
                                }
                            },
                            Some(Reduction::Uncover) => {
                                assert(hom_cmp(cnx, cn, cdx, cd, 1, 2, xvn, xvd) > 0);
                                assert(av(self.nx as int, self.n as int, xvn, xvd) == bb - aa
                                    && av(self.dx as int, self.d as int, xvn, xvd) == aa)
                                    by (nonlinear_arith)
                                    requires
                                        aa == cnx * xvn + cn * xvd,
                                        bb == cdx * xvn + cd * xvd,
                                        av(self.nx as int, self.n as int, xvn, xvd)
                                            == (self.nx as int) * xvn + (self.n as int) * xvd,
                                        av(self.dx as int, self.d as int, xvn, xvd)
                                            == (self.dx as int) * xvn + (self.d as int) * xvd,
                                        self.nx as int == cdx - cnx && self.n as int == cd - cn
                                            && self.dx as int == cnx && self.d as int == cn;
                                h_emit_unc(aa, bb,
                                    av(self.nx as int, self.n as int, xvn, xvd),
                                    av(self.dx as int, self.d as int, xvn, xvd));
                                assert forall|tp: int, tq: int| 0 < tp < tq
                                    implies #[trigger] hom_ok(self.nx as int, self.n as int, self.dx as int, self.d as int, tp, tq) by {
                                    assert(hom_ok(cnx, cn, cdx, cd, tp, tq));
                                    assert(hom_cmp(cnx, cn, cdx, cd, 1, 2, tp, tq) > 0);
                                    h_ok_unc(cnx, cn, cdx, cd,
                                        self.nx as int, self.n as int, self.dx as int, self.d as int, tp, tq);
                                }
                            },
                        }
                        assert(self.wf());
                        lemma_homographic_val(*self);
                        assert(self.vn() == crate::rat::pn(
                            av(self.nx as int, self.n as int, xvn, xvd),
                            av(self.dx as int, self.d as int, xvn, xvd)));
                        assert(self.vd() == crate::rat::pd(
                            av(self.nx as int, self.n as int, xvn, xvd),
                            av(self.dx as int, self.d as int, xvn, xvd)));
                        assert(step_rel(sym, cvn, cvd, self.vn(), self.vd()));
                        crate::rat::lemma_step_congr(sym, cvn, cvd, old(self).vn(), old(self).vd(),
                            self.vn(), self.vd());
                    }
                    return Ok(Step::Emit(sym));
                }
            }
            match self.reduction_ingest() {
                Ok(Some((num, den))) => {
                    proof {
                        assert(hom_ok(cnx, cn, cdx, cd, xvn, xvd));
                        h_collapse(num as int, den as int, aa, bb);
                    }
                    let parts = match ratio::new_i(num, den) {
                        Ok(t) => t,
                        Err(e) => {
                            proof {
                                assert(false);
                            }
                            return Err(Error::CoefficientOverflow);
                        },
                    };
                    match parts {
                        (None, None, Some(rr)) => {
                            proof {
                                h_collapse_val(num as int, den as int, aa, bb,
                                    rr.vn(), rr.vd());
                                crate::rat::lemma_rat_eq_trans(
                                    rr.vn(), rr.vd(), cvn, cvd, old(self).vn(), old(self).vd());
                            }
                            return Ok(Step::Become(Strategy::Ratio(rr)));
                        },
                        _ => {
                            proof {
                                assert(false);
                            }
                            return Err(Error::CoefficientOverflow);
                        },
                    }
                },
                Ok(None) => {
                    proof {
                        h_scaled_norm(
                            av(self.nx as int, self.n as int, self.x.vn(), self.x.vd()),
                            av(self.dx as int, self.d as int, self.x.vn(), self.x.vd()),
                            aa, bb);
                        crate::rat::lemma_rat_eq_trans(
                            self.vn(), self.vd(), cvn, cvd, old(self).vn(), old(self).vd());
                    }
                },
                Err(e) => { return Err(e); },
            }
        }
    }
}

proof fn h_seed_le(a: int, b: int)
    requires
        non_zero(a, b),
    ensures
        ext_le(a, b, a, b),
        crate::rat::compat(a, b, a, b),
{
    crate::rat::lemma_ext_total(a, b, a, b);
    if b == 0 {
        assert(!(a * a < 0)) by (nonlinear_arith);
    }
}

proof fn h_half_scaled(aa: int, bb: int, p: int, q: int)
    requires
        (aa == p && bb == q) || (2 * aa == p && 2 * bb == q),
    ensures
        scaled(aa, bb, p, q),
{
    if aa == p && bb == q {
        assert(aa * q == p * bb) by (nonlinear_arith)
            requires aa == p && bb == q;
    } else {
        assert(aa * q == p * bb && sgn(aa) == sgn(p) && sgn(bb) == sgn(q)) by (nonlinear_arith)
            requires 2 * aa == p && 2 * bb == q;
    }
}

/// The pointwise invariant leaves no infinite endpoint: a vanishing
/// endpoint denominator forces the matching numerator to vanish too.
proof fn h_inv_finite(nx: int, n: int, dx: int, d: int)
    requires
        hom_inv(nx, n, dx, d),
    ensures
        d == 0 ==> n == 0,
        dx + d == 0 ==> nx + n == 0,
{
    if d == 0 && n != 0 {
        let m = (if nx >= 0 { nx } else { -nx }) + (if dx >= 0 { dx } else { -dx })
            + dx * dx + 2;
        assert(dx * dx >= 0) by (nonlinear_arith);
        assert(0 < 1 < m);
        assert(hom_ok(nx, n, dx, d, 1, m));
        assert(false) by (nonlinear_arith)
            requires
                d == 0 && n != 0 && dx * dx >= 0,
                m >= (if nx >= 0 { nx } else { -nx }) + dx * dx + 2,
                av(dx, d, 1, m) != 0,
                0 < av(nx, n, 1, m) * av(dx, d, 1, m),
                av(nx, n, 1, m) * av(dx, d, 1, m) < av(dx, d, 1, m) * av(dx, d, 1, m),
                av(nx, n, 1, m) == nx * 1 + n * m,
                av(dx, d, 1, m) == dx * 1 + 0 * m;
    }
    if dx + d == 0 && nx + n != 0 {
        let m = (if n >= 0 { n } else { -n }) + (if nx >= 0 { nx } else { -nx })
            + (if d >= 0 { d } else { -d }) + d * d + 2;
        assert(d * d >= 0) by (nonlinear_arith);
        assert(0 < m - 1 < m);
        assert(hom_ok(nx, n, dx, d, m - 1, m));
        assert(false) by (nonlinear_arith)
            requires
                dx + d == 0 && nx + n != 0 && d * d >= 0,
                m >= (if n >= 0 { n } else { -n }) + (if nx >= 0 { nx } else { -nx })
                    + d * d + 2,
                av(dx, d, m - 1, m) != 0,
                0 < av(nx, n, m - 1, m) * av(dx, d, m - 1, m),
                av(nx, n, m - 1, m) * av(dx, d, m - 1, m)
                    < av(dx, d, m - 1, m) * av(dx, d, m - 1, m),
                av(nx, n, m - 1, m) == nx * (m - 1) + n * m,
                av(dx, d, m - 1, m) == dx * (m - 1) + d * m;
    }
}

/// The two extremes cannot both equal the constant unless the range
/// collapsed onto it, which the callers have already ruled out.
proof fn h_not_const_k(
    f0n: int, f0d: int, f1n: int, f1d: int,
    a: int, b: int, c: int, dd: int, kn: int, kd: int,
)
    requires
        kd > 0,
        non_zero(f0n, f0d), non_zero(f1n, f1d), non_zero(a, b), non_zero(c, dd),
        ext_le(a, b, f0n, f0d), ext_le(a, b, f1n, f1d),
        ext_le(f0n, f0d, c, dd), ext_le(f1n, f1d, c, dd),
        ext_eq(f0n, f0d, f1n, f1d) ==> a == c && b == dd,
        !(a == c && b == dd && ext_eq(a, b, kn, kd)),
    ensures
        !(ext_eq(f0n, f0d, kn, kd) && ext_eq(f1n, f1d, kn, kd)),
{
    if ext_eq(f0n, f0d, kn, kd) && ext_eq(f1n, f1d, kn, kd) {
        crate::rat::lemma_ext_le_congr(f0n, f0d, f1n, f1d, kn, kd, kn, kd);
        crate::rat::lemma_ext_total(kn, kd, kn, kd);
        assert(ext_eq(f0n, f0d, f1n, f1d));
        assert(a == c && b == dd);
        crate::rat::lemma_ext_le_trans(f0n, f0d, c, dd, f0n, f0d);
        crate::rat::lemma_ext_total(a, b, f0n, f0d);
        if crate::rat::ext_lt(a, b, f0n, f0d) {
            crate::rat::lemma_ext_le_trans(f0n, f0d, a, b, f0n, f0d);
            crate::rat::lemma_ext_total(f0n, f0d, f0n, f0d);
        }
        crate::rat::lemma_ext_le_congr(a, b, kn, kd, f0n, f0d, kn, kd);
    }
}

/// One-sided decision: when the range is wholly on the boundary side of a
/// nonzero constant, the whole image sits strictly beyond it.
proof fn h_branch_one_sided(
    nx: int, n: int, dx: int, d: int, kn: int,
    a: int, b: int, c: int, dd: int, lower: bool,
)
    requires
        amen(nx, n),
        amen(dx, d),
        non_zero(dx, d),
        non_zero(n, d), non_zero(nx + n, dx + d), non_zero(a, b), non_zero(c, dd),
        ext_le(a, b, n, d), ext_le(a, b, nx + n, dx + d),
        ext_le(n, d, c, dd), ext_le(nx + n, dx + d, c, dd),
        ext_eq(n, d, nx + n, dx + d) ==> a == c && b == dd,
        !(a == c && b == dd
            && (ext_eq(a, b, 0, 1) || ext_eq(a, b, 1, 1) || ext_eq(a, b, -1, 1))),
        lower ==> kn == 1 && !ext_lt(a, b, kn, 1),
        !lower ==> kn == -1 && !ext_lt(kn, 1, c, dd),
    ensures
        lower ==> hom_above(nx, n, dx, d, kn, 1),
        !lower ==> hom_below(nx, n, dx, d, kn, 1),
{
    crate::rat::lemma_ext_total(a, b, kn, 1);
    crate::rat::lemma_ext_total(c, dd, kn, 1);
    h_not_const_k(n, d, nx + n, dx + d, a, b, c, dd, kn, 1);
    if lower {
        crate::rat::lemma_ext_eq_sym(a, b, kn, 1);
        crate::rat::lemma_ext_le_trans(kn, 1, a, b, n, d);
        crate::rat::lemma_ext_le_trans(kn, 1, a, b, nx + n, dx + d);
        assert forall|tp: int, tq: int| 0 < tp < tq
            implies #[trigger] hom_cmp(nx, n, dx, d, kn, 1, tp, tq) > 0 by {
            lemma_hom_lower(nx, n, dx, d, kn, 1, tp, tq);
        }
    } else {
        crate::rat::lemma_ext_eq_sym(c, dd, kn, 1);
        crate::rat::lemma_ext_le_trans(n, d, c, dd, kn, 1);
        crate::rat::lemma_ext_le_trans(nx + n, dx + d, c, dd, kn, 1);
        assert forall|tp: int, tq: int| 0 < tp < tq
            implies #[trigger] hom_cmp(nx, n, dx, d, kn, 1, tp, tq) < 0 by {
            lemma_hom_upper(nx, n, dx, d, kn, 1, tp, tq);
        }
    }
}

/// Two-sided decision: when the range fits between two consecutive
/// boundary constants, the whole image sits strictly between them.
proof fn h_branch_two_sided(
    nx: int, n: int, dx: int, d: int, klo: int, khi: int,
    a: int, b: int, c: int, dd: int,
)
    requires
        amen(nx, n),
        amen(dx, d),
        non_zero(dx, d),
        non_zero(n, d), non_zero(nx + n, dx + d), non_zero(a, b), non_zero(c, dd),
        ext_le(a, b, n, d), ext_le(a, b, nx + n, dx + d),
        ext_le(n, d, c, dd), ext_le(nx + n, dx + d, c, dd),
        ext_eq(n, d, nx + n, dx + d) ==> a == c && b == dd,
        !(a == c && b == dd
            && (ext_eq(a, b, 0, 1) || ext_eq(a, b, 1, 1) || ext_eq(a, b, -1, 1))),
        (klo == -1 && khi == 0) || (klo == 0 && khi == 1),
        !ext_lt(a, b, klo, 1),
        !ext_lt(khi, 1, c, dd),
    ensures
        hom_above(nx, n, dx, d, klo, 1),
        hom_below(nx, n, dx, d, khi, 1),
{
    crate::rat::lemma_ext_total(a, b, klo, 1);
    crate::rat::lemma_ext_total(c, dd, khi, 1);
    crate::rat::lemma_ext_eq_sym(a, b, klo, 1);
    crate::rat::lemma_ext_eq_sym(c, dd, khi, 1);
    crate::rat::lemma_ext_le_trans(klo, 1, a, b, n, d);
    crate::rat::lemma_ext_le_trans(klo, 1, a, b, nx + n, dx + d);
    crate::rat::lemma_ext_le_trans(n, d, c, dd, khi, 1);
    crate::rat::lemma_ext_le_trans(nx + n, dx + d, c, dd, khi, 1);
    h_not_const_k(n, d, nx + n, dx + d, a, b, c, dd, klo, 1);
    h_not_const_k(n, d, nx + n, dx + d, a, b, c, dd, khi, 1);
    h_le_k(n, d, klo, 1);
    h_le_k(n, d, khi, 1);
    h_le_k(nx + n, dx + d, klo, 1);
    h_le_k(nx + n, dx + d, khi, 1);
    assert(d != 0);
    assert(dx + d != 0);
    assert forall|tp: int, tq: int| 0 < tp < tq
        implies #[trigger] hom_cmp(nx, n, dx, d, klo, 1, tp, tq) > 0 by {
        lemma_hom_lower(nx, n, dx, d, klo, 1, tp, tq);
    }
    assert forall|tp: int, tq: int| 0 < tp < tq
        implies #[trigger] hom_cmp(nx, n, dx, d, khi, 1, tp, tq) < 0 by {
        lemma_hom_upper(nx, n, dx, d, khi, 1, tp, tq);
    }
}

/// Both extremes equal one half only when the whole image is one half.
proof fn h_branch_half(
    nx: int, n: int, dx: int, d: int,
    a: int, b: int, c: int, dd: int,
)
    requires
        amen(nx, n),
        amen(dx, d),
        non_zero(dx, d),
        non_zero(n, d), non_zero(nx + n, dx + d), non_zero(a, b), non_zero(c, dd),
        ext_le(a, b, n, d), ext_le(a, b, nx + n, dx + d),
        ext_le(n, d, c, dd), ext_le(nx + n, dx + d, c, dd),
        ext_eq(a, b, 1, 2),
        ext_eq(c, dd, 1, 2),
    ensures
        forall|tp: int, tq: int| 0 < tp < tq
            ==> 2 * #[trigger] av(nx, n, tp, tq) == av(dx, d, tp, tq),
{
    crate::rat::lemma_ext_eq_sym(a, b, 1, 2);
    crate::rat::lemma_ext_le_trans(1, 2, a, b, n, d);
    crate::rat::lemma_ext_le_trans(1, 2, a, b, nx + n, dx + d);
    crate::rat::lemma_ext_le_trans(n, d, c, dd, 1, 2);
    crate::rat::lemma_ext_le_trans(nx + n, dx + d, c, dd, 1, 2);
    crate::rat::lemma_ext_total(n, d, 1, 2);
    crate::rat::lemma_ext_total(nx + n, dx + d, 1, 2);
    assert(ext_eq(n, d, 1, 2));
    assert(ext_eq(nx + n, dx + d, 1, 2));
    crate::rat::lemma_ext_le_congr(n, d, nx + n, dx + d, 1, 2, 1, 2);
    crate::rat::lemma_ext_total(1, 2, 1, 2);
    assert(d != 0 && 2 * n == d);
    assert forall|tp: int, tq: int| 0 < tp < tq
        implies 2 * #[trigger] av(nx, n, tp, tq) == av(dx, d, tp, tq) by {
        lemma_hom_const(nx, n, dx, d, tp, tq);
        assert(2 * av(nx, n, tp, tq) == av(dx, d, tp, tq)) by (nonlinear_arith)
            requires
                av(nx, n, tp, tq) * d == n * av(dx, d, tp, tq),
                2 * n == d,
                d != 0;
    }
}

/// The range is wholly at or below one half, and not the constant one
/// half itself: the whole image is strictly below it.
proof fn h_branch_below_half(
    nx: int, n: int, dx: int, d: int,
    a: int, b: int, c: int, dd: int,
)
    requires
        amen(nx, n),
        amen(dx, d),
        non_zero(dx, d),
        hom_inv(nx, n, dx, d),
        non_zero(n, d), non_zero(nx + n, dx + d), non_zero(a, b), non_zero(c, dd),
        ext_le(a, b, n, d), ext_le(a, b, nx + n, dx + d),
        ext_le(n, d, c, dd), ext_le(nx + n, dx + d, c, dd),
        ext_eq(n, d, nx + n, dx + d) ==> a == c && b == dd,
        !(ext_eq(a, b, 1, 2) && ext_eq(c, dd, 1, 2)),
        !ext_lt(1, 2, c, dd),
    ensures
        hom_below(nx, n, dx, d, 1, 2),
{
    h_inv_finite(nx, n, dx, d);
    assert(d != 0);
    assert(dx + d != 0);
    crate::rat::lemma_ext_total(c, dd, 1, 2);
    crate::rat::lemma_ext_le_trans(n, d, c, dd, 1, 2);
    crate::rat::lemma_ext_le_trans(nx + n, dx + d, c, dd, 1, 2);
    if ext_eq(n, d, 1, 2) && ext_eq(nx + n, dx + d, 1, 2) {
        crate::rat::lemma_ext_le_congr(n, d, nx + n, dx + d, 1, 2, 1, 2);
        crate::rat::lemma_ext_total(1, 2, 1, 2);
        assert(a == c && b == dd);
        crate::rat::lemma_ext_le_trans(a, b, n, d, c, dd);
        crate::rat::lemma_ext_total(a, b, n, d);
        if crate::rat::ext_lt(a, b, n, d) {
            crate::rat::lemma_ext_le_trans(n, d, a, b, n, d);
            crate::rat::lemma_ext_total(n, d, n, d);
        }
        crate::rat::lemma_ext_le_congr(a, b, 1, 2, n, d, 1, 2);
        assert(false);
    }
    assert forall|tp: int, tq: int| 0 < tp < tq
        implies #[trigger] hom_cmp(nx, n, dx, d, 1, 2, tp, tq) < 0 by {
        lemma_hom_upper(nx, n, dx, d, 1, 2, tp, tq);
    }
}

/// The range is wholly at or above one half, and not the constant one
/// half itself: the whole image is strictly above it.
proof fn h_branch_above_half(
    nx: int, n: int, dx: int, d: int,
    a: int, b: int, c: int, dd: int,
)
    requires
        amen(nx, n),
        amen(dx, d),
        non_zero(dx, d),
        non_zero(n, d), non_zero(nx + n, dx + d), non_zero(a, b), non_zero(c, dd),
        ext_le(a, b, n, d), ext_le(a, b, nx + n, dx + d),
        ext_le(n, d, c, dd), ext_le(nx + n, dx + d, c, dd),
        ext_eq(n, d, nx + n, dx + d) ==> a == c && b == dd,
        !(ext_eq(a, b, 1, 2) && ext_eq(c, dd, 1, 2)),
        !ext_lt(a, b, 1, 2),
    ensures
        hom_above(nx, n, dx, d, 1, 2),
{
    crate::rat::lemma_ext_total(a, b, 1, 2);
    crate::rat::lemma_ext_eq_sym(a, b, 1, 2);
    crate::rat::lemma_ext_le_trans(1, 2, a, b, n, d);
    crate::rat::lemma_ext_le_trans(1, 2, a, b, nx + n, dx + d);
    if ext_eq(n, d, 1, 2) && ext_eq(nx + n, dx + d, 1, 2) {
        crate::rat::lemma_ext_le_congr(n, d, nx + n, dx + d, 1, 2, 1, 2);
        crate::rat::lemma_ext_total(1, 2, 1, 2);
        assert(a == c && b == dd);
        crate::rat::lemma_ext_le_trans(n, d, c, dd, a, b);
        crate::rat::lemma_ext_total(a, b, n, d);
        if crate::rat::ext_lt(a, b, n, d) {
            crate::rat::lemma_ext_le_trans(n, d, a, b, n, d);
            crate::rat::lemma_ext_total(n, d, n, d);
        }
        crate::rat::lemma_ext_le_congr(a, b, 1, 2, n, d, 1, 2);
        assert(false);
    }
    assert forall|tp: int, tq: int| 0 < tp < tq
        implies #[trigger] hom_cmp(nx, n, dx, d, 1, 2, tp, tq) > 0 by {
        lemma_hom_lower(nx, n, dx, d, 1, 2, tp, tq);
    }
}

proof fn h_ok_none(nx: int, n: int, dx: int, d: int, tp: int, tq: int)
    requires
        hom_cmp(nx, n, dx, d, 0, 1, tp, tq) > 0,
        hom_cmp(nx, n, dx, d, 1, 1, tp, tq) < 0,
    ensures
        hom_ok(nx, n, dx, d, tp, tq),
{
    let aa = av(nx, n, tp, tq);
    let bb = av(dx, d, tp, tq);
    assert(bb != 0 && 0 < aa * bb && aa * bb < bb * bb) by (nonlinear_arith)
        requires (aa * 1 - 0 * bb) * bb > 0 && (aa * 1 - 1 * bb) * bb < 0;
}

proof fn h_ok_turn(nx: int, n: int, dx: int, d: int, tp: int, tq: int)
    requires
        hom_cmp(nx, n, dx, d, 1, 1, tp, tq) > 0,
    ensures
        hom_ok(dx, d, nx, n, tp, tq),
{
    let aa = av(nx, n, tp, tq);
    let bb = av(dx, d, tp, tq);
    assert(aa != 0 && 0 < bb * aa && bb * aa < aa * aa) by (nonlinear_arith)
        requires (aa * 1 - 1 * bb) * bb > 0;
}

proof fn h_ok_reflect(nx: int, n: int, dx: int, d: int, tp: int, tq: int)
    requires
        hom_cmp(nx, n, dx, d, -1, 1, tp, tq) > 0,
        hom_cmp(nx, n, dx, d, 0, 1, tp, tq) < 0,
    ensures
        hom_ok(-nx, -n, dx, d, tp, tq),
{
    let aa = av(nx, n, tp, tq);
    let bb = av(dx, d, tp, tq);
    assert(av(-nx, -n, tp, tq) == -aa) by (nonlinear_arith)
        requires aa == nx * tp + n * tq && av(-nx, -n, tp, tq) == (-nx) * tp + (-n) * tq;
    assert(bb != 0 && 0 < (-aa) * bb && (-aa) * bb < bb * bb) by (nonlinear_arith)
        requires (aa * 1 - (-1) * bb) * bb > 0 && (aa * 1 - 0 * bb) * bb < 0;
}

proof fn h_ok_ground(nx: int, n: int, dx: int, d: int, tp: int, tq: int)
    requires
        hom_cmp(nx, n, dx, d, -1, 1, tp, tq) < 0,
    ensures
        hom_ok(-dx, -d, nx, n, tp, tq),
{
    let aa = av(nx, n, tp, tq);
    let bb = av(dx, d, tp, tq);
    assert(av(-dx, -d, tp, tq) == -bb) by (nonlinear_arith)
        requires bb == dx * tp + d * tq && av(-dx, -d, tp, tq) == (-dx) * tp + (-d) * tq;
    assert(aa != 0 && 0 < (-bb) * aa && (-bb) * aa < aa * aa) by (nonlinear_arith)
        requires (aa * 1 - (-1) * bb) * bb < 0;
}

proof fn h_ok_ingest_amp(
    nx: int, n: int, dx: int, d: int, nx2: int, n2: int, dx2: int, d2: int, tp: int, tq: int,
)
    requires
        0 < tp < tq,
        hom_ok(nx, n, dx, d, tp, 2 * tq),
        (2 * nx2 == nx && n2 == n && 2 * dx2 == dx && d2 == d)
            || (nx2 == nx && n2 == 2 * n && dx2 == dx && d2 == 2 * d),
    ensures
        hom_ok(nx2, n2, dx2, d2, tp, tq),
{
    let aa = av(nx, n, tp, 2 * tq);
    let bb = av(dx, d, tp, 2 * tq);
    let a2 = av(nx2, n2, tp, tq);
    let b2 = av(dx2, d2, tp, tq);
    if 2 * nx2 == nx && n2 == n && 2 * dx2 == dx && d2 == d {
        assert(2 * a2 == aa && 2 * b2 == bb) by (nonlinear_arith)
            requires
                a2 == nx2 * tp + n2 * tq && aa == nx * tp + n * (2 * tq)
                    && 2 * nx2 == nx && n2 == n,
                b2 == dx2 * tp + d2 * tq && bb == dx * tp + d * (2 * tq)
                    && 2 * dx2 == dx && d2 == d;
        assert(b2 != 0 && 0 < a2 * b2 && a2 * b2 < b2 * b2) by (nonlinear_arith)
            requires 2 * a2 == aa && 2 * b2 == bb && bb != 0 && 0 < aa * bb && aa * bb < bb * bb;
    } else {
        assert(a2 == aa && b2 == bb) by (nonlinear_arith)
            requires
                a2 == nx2 * tp + n2 * tq && aa == nx * tp + n * (2 * tq)
                    && nx2 == nx && n2 == 2 * n,
                b2 == dx2 * tp + d2 * tq && bb == dx * tp + d * (2 * tq)
                    && dx2 == dx && d2 == 2 * d;
    }
}

proof fn h_ok_ingest_unc(
    nx: int, n: int, dx: int, d: int, nx2: int, n2: int, dx2: int, d2: int, tp: int, tq: int,
)
    requires
        0 < tp < tq,
        hom_ok(nx, n, dx, d, tq, tp + tq),
        nx2 == n && n2 == nx + n && dx2 == d && d2 == dx + d,
    ensures
        hom_ok(nx2, n2, dx2, d2, tp, tq),
{
    let aa = av(nx, n, tq, tp + tq);
    let bb = av(dx, d, tq, tp + tq);
    let a2 = av(nx2, n2, tp, tq);
    let b2 = av(dx2, d2, tp, tq);
    assert(a2 == aa && b2 == bb) by (nonlinear_arith)
        requires
            a2 == nx2 * tp + n2 * tq && aa == nx * tq + n * (tp + tq)
                && nx2 == n && n2 == nx + n,
            b2 == dx2 * tp + d2 * tq && bb == dx * tq + d * (tp + tq)
                && dx2 == d && d2 == dx + d;
}

proof fn h_ok_amp(
    nx: int, n: int, dx: int, d: int, nx2: int, n2: int, dx2: int, d2: int, tp: int, tq: int,
)
    requires
        hom_ok(nx, n, dx, d, tp, tq),
        hom_cmp(nx, n, dx, d, 1, 2, tp, tq) < 0,
        (nx2 == nx && n2 == n && 2 * dx2 == dx && 2 * d2 == d)
            || (nx2 == 2 * nx && n2 == 2 * n && dx2 == dx && d2 == d),
    ensures
        hom_ok(nx2, n2, dx2, d2, tp, tq),
{
    let aa = av(nx, n, tp, tq);
    let bb = av(dx, d, tp, tq);
    let a2 = av(nx2, n2, tp, tq);
    let b2 = av(dx2, d2, tp, tq);
    if nx2 == nx && n2 == n && 2 * dx2 == dx && 2 * d2 == d {
        assert(a2 == aa && 2 * b2 == bb) by (nonlinear_arith)
            requires
                a2 == nx2 * tp + n2 * tq && aa == nx * tp + n * tq && nx2 == nx && n2 == n,
                b2 == dx2 * tp + d2 * tq && bb == dx * tp + d * tq
                    && 2 * dx2 == dx && 2 * d2 == d;
        assert(b2 != 0 && 0 < a2 * b2 && a2 * b2 < b2 * b2) by (nonlinear_arith)
            requires
                a2 == aa && 2 * b2 == bb && bb != 0 && 0 < aa * bb
                    && (aa * 2 - 1 * bb) * bb < 0;
    } else {
        assert(a2 == 2 * aa && b2 == bb) by (nonlinear_arith)
            requires
                a2 == nx2 * tp + n2 * tq && aa == nx * tp + n * tq
                    && nx2 == 2 * nx && n2 == 2 * n,
                b2 == dx2 * tp + d2 * tq && bb == dx * tp + d * tq && dx2 == dx && d2 == d;
        assert(b2 != 0 && 0 < a2 * b2 && a2 * b2 < b2 * b2) by (nonlinear_arith)
            requires
                a2 == 2 * aa && b2 == bb && bb != 0 && 0 < aa * bb
                    && (aa * 2 - 1 * bb) * bb < 0;
    }
}

proof fn h_ok_unc(
    nx: int, n: int, dx: int, d: int, nx2: int, n2: int, dx2: int, d2: int, tp: int, tq: int,
)
    requires
        hom_ok(nx, n, dx, d, tp, tq),
        hom_cmp(nx, n, dx, d, 1, 2, tp, tq) > 0,
        nx2 == dx - nx && n2 == d - n && dx2 == nx && d2 == n,
    ensures
        hom_ok(nx2, n2, dx2, d2, tp, tq),
{
    let aa = av(nx, n, tp, tq);
    let bb = av(dx, d, tp, tq);
    let a2 = av(nx2, n2, tp, tq);
    let b2 = av(dx2, d2, tp, tq);
    assert(a2 == bb - aa && b2 == aa) by (nonlinear_arith)
        requires
            a2 == nx2 * tp + n2 * tq && aa == nx * tp + n * tq && bb == dx * tp + d * tq
                && nx2 == dx - nx && n2 == d - n,
            b2 == dx2 * tp + d2 * tq && dx2 == nx && d2 == n;
    assert(b2 != 0 && 0 < a2 * b2 && a2 * b2 < b2 * b2) by (nonlinear_arith)
        requires
            a2 == bb - aa && b2 == aa && bb != 0 && 0 < aa * bb && aa * bb < bb * bb
                && (aa * 2 - 1 * bb) * bb > 0;
}

pub(crate) proof fn h_map_none(aa: int, bb: int)
    requires
        aa * bb > 0,
    ensures
        crate::rat::pn(aa, bb) * bb == aa * crate::rat::pd(aa, bb),
        crate::rat::pd(aa, bb) > 0,
{
    if bb < 0 {
        assert((-aa) * bb == aa * (-bb)) by (nonlinear_arith);
    } else {
        assert(bb != 0) by (nonlinear_arith)
            requires aa * bb > 0;
    }
}

pub(crate) proof fn h_map_turn(aa: int, bb: int)
    requires
        (aa * 1 - 1 * bb) * bb > 0,
    ensures
        crate::rat::pd(bb, aa) * bb == aa * crate::rat::pn(bb, aa),
        crate::rat::pn(bb, aa) > 0,
{
    assert(aa != 0 && (aa > 0 ==> bb > 0) && (aa < 0 ==> bb < 0)) by (nonlinear_arith)
        requires (aa * 1 - 1 * bb) * bb > 0;
    if aa < 0 {
        assert((-aa) * bb == aa * (-bb)) by (nonlinear_arith);
        assert(-bb > 0);
    }
}

pub(crate) proof fn h_map_reflect(aa: int, bb: int)
    requires
        aa * bb < 0,
    ensures
        (-crate::rat::pn(-aa, bb)) * bb == aa * crate::rat::pd(-aa, bb),
        crate::rat::pd(-aa, bb) > 0,
{
    assert(bb != 0) by (nonlinear_arith)
        requires aa * bb < 0;
    if bb < 0 {
        assert((-aa) * bb == aa * (-bb)) by (nonlinear_arith);
    }
}

pub(crate) proof fn h_map_ground(aa: int, bb: int)
    requires
        (aa * 1 - (-1) * bb) * bb < 0,
    ensures
        (-crate::rat::pd(-bb, aa)) * bb == aa * crate::rat::pn(-bb, aa),
        crate::rat::pn(-bb, aa) > 0,
{
    assert(aa != 0 && bb != 0 && (aa > 0 ==> bb < 0) && (aa < 0 ==> bb > 0)) by (nonlinear_arith)
        requires (aa * 1 - (-1) * bb) * bb < 0;
    if aa < 0 {
        assert(bb > 0);
        assert(crate::rat::pn(-bb, aa) == bb && crate::rat::pd(-bb, aa) == -aa);
        assert((-(-aa)) * bb == aa * bb) by (nonlinear_arith);
    } else {
        assert(aa > 0 && bb < 0);
        assert(crate::rat::pn(-bb, aa) == -bb && crate::rat::pd(-bb, aa) == aa);
        assert((-aa) * bb == aa * (-bb)) by (nonlinear_arith);
    }
}

proof fn h_val_transfer(nvn: int, nvd: int, aa: int, bb: int, p0: int, q0: int)
    requires
        nvn * bb == aa * nvd,
        scaled(aa, bb, p0, q0),
        bb != 0,
    ensures
        nvn * q0 == p0 * nvd,
{
    assert((nvn * q0 - p0 * nvd) * bb == 0) by (nonlinear_arith)
        requires nvn * bb == aa * nvd && aa * q0 == p0 * bb;
    assert(nvn * q0 == p0 * nvd) by (nonlinear_arith)
        requires (nvn * q0 - p0 * nvd) * bb == 0 && bb != 0;
}

proof fn h_emit_half(aa: int, bb: int)
    requires
        0 < aa * bb,
        2 * aa == bb,
    ensures
        rat_eq(crate::rat::pn(aa, bb), crate::rat::pd(aa, bb), 1, 2),
{
    assert(aa != 0) by (nonlinear_arith)
        requires 0 < aa * bb;
    if bb < 0 {
        assert((-aa) * 2 == 1 * (-bb)) by (nonlinear_arith)
            requires 2 * aa == bb;
    } else {
        assert(aa * 2 == 1 * bb) by (nonlinear_arith)
            requires 2 * aa == bb;
    }
}

pub(crate) proof fn h_emit_amp(aa: int, bb: int, a2: int, b2: int)
    requires
        0 < aa * bb,
        aa * bb < bb * bb,
        (aa * 2 - 1 * bb) * bb < 0,
        (a2 == aa && 2 * b2 == bb) || (a2 == 2 * aa && b2 == bb),
    ensures
        rat_lt(crate::rat::pn(aa, bb), crate::rat::pd(aa, bb), 1, 2),
        rat_eq(crate::rat::pn(a2, b2), crate::rat::pd(a2, b2),
            2 * crate::rat::pn(aa, bb), crate::rat::pd(aa, bb)),
{
    assert(bb != 0 && aa != 0 && (bb > 0 ==> 2 * aa < bb && aa > 0)
        && (bb < 0 ==> 2 * aa > bb && aa < 0)
        && (b2 > 0 ==> bb > 0) && (b2 < 0 ==> bb < 0) && b2 != 0) by (nonlinear_arith)
        requires 0 < aa * bb && (aa * 2 - 1 * bb) * bb < 0
            && ((a2 == aa && 2 * b2 == bb) || (a2 == 2 * aa && b2 == bb));
    if bb > 0 {
        assert(crate::rat::pn(aa, bb) * 2 < 1 * crate::rat::pd(aa, bb)) by (nonlinear_arith)
            requires crate::rat::pn(aa, bb) == aa && crate::rat::pd(aa, bb) == bb
                && 2 * aa < bb;
        assert(crate::rat::pn(a2, b2) * crate::rat::pd(aa, bb)
            == (2 * crate::rat::pn(aa, bb)) * crate::rat::pd(a2, b2)) by (nonlinear_arith)
            requires crate::rat::pn(aa, bb) == aa && crate::rat::pd(aa, bb) == bb
                && crate::rat::pn(a2, b2) == a2 && crate::rat::pd(a2, b2) == b2
                && ((a2 == aa && 2 * b2 == bb) || (a2 == 2 * aa && b2 == bb));
    } else {
        assert(crate::rat::pn(aa, bb) * 2 < 1 * crate::rat::pd(aa, bb)) by (nonlinear_arith)
            requires crate::rat::pn(aa, bb) == -aa && crate::rat::pd(aa, bb) == -bb
                && 2 * aa > bb;
        assert(crate::rat::pn(a2, b2) * crate::rat::pd(aa, bb)
            == (2 * crate::rat::pn(aa, bb)) * crate::rat::pd(a2, b2)) by (nonlinear_arith)
            requires crate::rat::pn(aa, bb) == -aa && crate::rat::pd(aa, bb) == -bb
                && crate::rat::pn(a2, b2) == -a2 && crate::rat::pd(a2, b2) == -b2
                && ((a2 == aa && 2 * b2 == bb) || (a2 == 2 * aa && b2 == bb));
    }
}

pub(crate) proof fn h_emit_unc(aa: int, bb: int, a2: int, b2: int)
    requires
        0 < aa * bb,
        aa * bb < bb * bb,
        (aa * 2 - 1 * bb) * bb > 0,
        a2 == bb - aa,
        b2 == aa,
    ensures
        rat_lt(1, 2, crate::rat::pn(aa, bb), crate::rat::pd(aa, bb)),
        rat_eq(crate::rat::pn(a2, b2), crate::rat::pd(a2, b2),
            crate::rat::pd(aa, bb) - crate::rat::pn(aa, bb), crate::rat::pn(aa, bb)),
{
    assert(bb != 0 && aa != 0 && (bb > 0 ==> 2 * aa > bb && aa > 0)
        && (bb < 0 ==> 2 * aa < bb && aa < 0)) by (nonlinear_arith)
        requires 0 < aa * bb && (aa * 2 - 1 * bb) * bb > 0;
    if bb > 0 {
        assert(1 * crate::rat::pd(aa, bb) < crate::rat::pn(aa, bb) * 2) by (nonlinear_arith)
            requires crate::rat::pn(aa, bb) == aa && crate::rat::pd(aa, bb) == bb
                && 2 * aa > bb;
        assert(crate::rat::pn(a2, b2) * crate::rat::pn(aa, bb)
            == (crate::rat::pd(aa, bb) - crate::rat::pn(aa, bb)) * crate::rat::pd(a2, b2))
            by (nonlinear_arith)
            requires crate::rat::pn(aa, bb) == aa && crate::rat::pd(aa, bb) == bb
                && crate::rat::pn(a2, b2) == a2 && crate::rat::pd(a2, b2) == b2
                && a2 == bb - aa && b2 == aa && aa > 0;
    } else {
        assert(1 * crate::rat::pd(aa, bb) < crate::rat::pn(aa, bb) * 2) by (nonlinear_arith)
            requires crate::rat::pn(aa, bb) == -aa && crate::rat::pd(aa, bb) == -bb
                && 2 * aa < bb;
        assert(crate::rat::pn(a2, b2) * crate::rat::pn(aa, bb)
            == (crate::rat::pd(aa, bb) - crate::rat::pn(aa, bb)) * crate::rat::pd(a2, b2))
            by (nonlinear_arith)
            requires crate::rat::pn(aa, bb) == -aa && crate::rat::pd(aa, bb) == -bb
                && crate::rat::pn(a2, b2) == -a2 && crate::rat::pd(a2, b2) == -b2
                && a2 == bb - aa && b2 == aa && aa < 0;
    }
}

proof fn h_collapse(num: int, den: int, aa: int, bb: int)
    requires
        scaled(num, den, aa, bb),
        0 < aa * bb,
        aa * bb < bb * bb,
    ensures
        num != 0,
        den != 0,
        0 < num * den,
        (num >= 0 && den >= 0) || (num < 0 && den < 0),
        (if num >= 0 { num } else { -num }) < (if den >= 0 { den } else { -den }),
        (if num >= 0 { num } else { -num }) != 0,
        crate::rat::pn(num, den) == (if num >= 0 { num } else { -num }),
        crate::rat::pd(num, den) == (if den >= 0 { den } else { -den }),
{
    assert(aa != 0 && bb != 0) by (nonlinear_arith)
        requires 0 < aa * bb;
    assert(num != 0 && den != 0 && 0 < num * den) by (nonlinear_arith)
        requires sgn(num) == sgn(aa) && sgn(den) == sgn(bb) && 0 < aa * bb;
    assert((num * den) * (bb * bb) == (den * den) * (aa * bb)) by (nonlinear_arith)
        requires num * bb == aa * den;
    assert(num * den < den * den) by (nonlinear_arith)
        requires
            (num * den) * (bb * bb) == (den * den) * (aa * bb),
            aa * bb < bb * bb,
            bb != 0,
            den != 0;
    assert((num >= 0 && den >= 0) || (num < 0 && den < 0)) by (nonlinear_arith)
        requires 0 < num * den;
    assert((if num >= 0 { num } else { -num }) < (if den >= 0 { den } else { -den }))
        by (nonlinear_arith)
        requires 0 < num * den && num * den < den * den;
}

proof fn h_collapse_val(num: int, den: int, aa: int, bb: int, rvn: int, rvd: int)
    requires
        scaled(num, den, aa, bb),
        bb != 0,
        num * den > 0,
        rvn == crate::rat::pn(num, den),
        rvd == crate::rat::pd(num, den),
    ensures
        rat_eq(rvn, rvd, crate::rat::pn(aa, bb), crate::rat::pd(aa, bb)),
        rvd > 0,
{
    crate::rat::lemma_pos_cross(num, den, aa, bb);
    assert(num * bb == aa * den);
    assert(den != 0) by (nonlinear_arith)
        requires num * den > 0;
}

proof fn h_scaled_norm(a2: int, b2: int, aa: int, bb: int)
    requires
        scaled(a2, b2, aa, bb),
        bb != 0,
    ensures
        b2 != 0,
        rat_eq(crate::rat::pn(a2, b2), crate::rat::pd(a2, b2),
            crate::rat::pn(aa, bb), crate::rat::pd(aa, bb)),
        crate::rat::pd(a2, b2) > 0,
{
    crate::rat::lemma_pos_cross(a2, b2, aa, bb);
}

/// Construct the number `(nx·x + n) / (dx·x + d)` over an existing number:
/// the lazy one-variable transform.  A degenerate transform collapses
/// directly to a fraction; a boundary value of `x` substitutes its closed
/// form; otherwise the primer of `x` is folded into the coefficients and
/// the transform is primed over the inner stream.  The result denotes
/// exactly the exact rational evaluation of the transform at `x`'s value.
pub fn new(x: Number, nx: isize, n: isize, dx: isize, d: isize) -> (r: Result<Number, Error>)
    requires
        x.wf(),
        x.modeled(),
    ensures
        ({
            let hn = av(nx as int, n as int, x.vn(), x.vd());
            let hd = av(dx as int, d as int, x.vn(), x.vd());
            &&& (nx == 0 && dx == 0 && d != 0 ==> r is Ok)
            &&& (x is Special && hd != 0
                    && isize::MIN as int <= hn <= isize::MAX as int
                    && isize::MIN as int <= hd <= isize::MAX as int ==> r is Ok)
            &&& (hn == 0 && hd == 0 ==> r is Err)
            &&& (x is Special && hn == 0 && hd == 0 ==> r == Err::<Number, Error>(Error::DivisionByZero))
            &&& match r {
                Ok(v) => v.wf() && v.modeled() && v.vd() > 0 && hd != 0
                    && v.height() <= x.height() + 1 && v.strategy_rank() <= 1
                    && v.vn() * hd == hn * v.vd(),
                Err(e) => (e == Error::DivisionByZero ==> hd == 0)
                    && (e is DivisionByZero || e is CoefficientOverflow),
            }
        }),
    decreases x.height(), 6nat,
{
    let ghost hn = av(nx as int, n as int, x.vn(), x.vd());
    let ghost hd = av(dx as int, d as int, x.vn(), x.vd());
    proof {
        h_num_val(x);
    }
    if nx == 0 && dx == 0 {
        proof {
            assert(hn == (n as int) * x.vd() && hd == (d as int) * x.vd()) by (nonlinear_arith)
                requires hn == 0 * x.vn() + (n as int) * x.vd()
                    && hd == 0 * x.vn() + (d as int) * x.vd();
        }
        let r = Number::ratio(n, d);
        proof {
            assert((hd == 0) == (d as int == 0)) by (nonlinear_arith)
                requires hd == 0 * x.vn() + (d as int) * x.vd() && x.vd() > 0;
            if r is Ok {
                let v = r->Ok_0;
                h_num_val(v);
                assert(v.vn() * hd == hn * v.vd()) by (nonlinear_arith)
                    requires v.vn() * (d as int) == (n as int) * v.vd()
                        && hn == (n as int) * x.vd() && hd == (d as int) * x.vd();
            } else {
                assert(hd == 0) by (nonlinear_arith)
                    requires hd == (d as int) * x.vd() && d as int == 0;
            }
        }
        return r;
    }
    match x {
        Number::Special(special) => {
            proof {
                assert(x.vn() == -1 ==> hn == n as int - nx as int && hd == d as int - dx as int)
                    by (nonlinear_arith)
                    requires hn == (nx as int) * x.vn() + (n as int) * x.vd()
                        && hd == (dx as int) * x.vn() + (d as int) * x.vd()
                        && x.vd() == 1 && x.vn() == x.vn();
                assert(x.vn() == 0 ==> hn == n as int && hd == d as int) by (nonlinear_arith)
                    requires hn == (nx as int) * x.vn() + (n as int) * x.vd()
                        && hd == (dx as int) * x.vn() + (d as int) * x.vd()
                        && x.vd() == 1;
                assert(x.vn() == 1 ==> hn == n as int + nx as int && hd == d as int + dx as int)
                    by (nonlinear_arith)
                    requires hn == (nx as int) * x.vn() + (n as int) * x.vd()
                        && hd == (dx as int) * x.vn() + (d as int) * x.vd()
                        && x.vd() == 1;
            }
            let (num, den) = match special {
                Special::NegOne => {
                    let num = match support::csub(n, nx) { Ok(v) => v, Err(e) => { return Err(e); } };
                    let den = match support::csub(d, dx) { Ok(v) => v, Err(e) => { return Err(e); } };
                    (num, den)
                },
                Special::Zero => (n, d),
                Special::PosOne => {
                    let num = match support::cadd(n, nx) { Ok(v) => v, Err(e) => { return Err(e); } };
                    let den = match support::cadd(d, dx) { Ok(v) => v, Err(e) => { return Err(e); } };
                    (num, den)
                },
            };
            let rr = Number::ratio(num, den);
            proof {
                if rr is Ok {
                    h_num_val(rr->Ok_0);
                }
                assert(hn == num as int && hd == den as int) by (nonlinear_arith)
                    requires
                        hn == (nx as int) * x.vn() + (n as int) * x.vd()
                            && hd == (dx as int) * x.vn() + (d as int) * x.vd()
                            && x.vd() == 1 && (x.vn() == -1 || x.vn() == 0 || x.vn() == 1)
                            && (x.vn() == -1 ==> num as int == n as int - nx as int
                                && den as int == d as int - dx as int)
                            && (x.vn() == 0 ==> num == n && den == d)
                            && (x.vn() == 1 ==> num as int == n as int + nx as int
                                && den as int == d as int + dx as int);
            }
            rr
        },
        Number::Other(x_primer, x_clog) => {
            proof {
                crate::lemma_clog_val(x_clog);
            }
            let (fnx, fn2, fdx, fd2) = match x_primer {
                Some(Primer::Turn) => (n, nx, d, dx),
                Some(Primer::Reflect) => {
                    let a = match support::csub(0, nx) { Ok(v) => v, Err(e) => { return Err(e); } };
                    let b = match support::csub(0, dx) { Ok(v) => v, Err(e) => { return Err(e); } };
                    (a, n, b, d)
                },
                Some(Primer::Ground) => {
                    let a = match support::csub(0, nx) { Ok(v) => v, Err(e) => { return Err(e); } };
                    let b = match support::csub(0, dx) { Ok(v) => v, Err(e) => { return Err(e); } };
                    (n, a, d, b)
                },
                None => (nx, n, dx, d),
            };
            let hh = Homographic { x: x_clog, nx: fnx, n: fn2, dx: fdx, d: fd2 };
            proof {
                h_fold_identity(nx as int, n as int, dx as int, d as int,
                    fnx as int, fn2 as int, fdx as int, fd2 as int,
                    x_primer, x_clog.vn(), x_clog.vd(), x.vn(), x.vd());
            }
            hh.prime()
        },
    }
}

/// The value pair of a number, for each of its shapes.
proof fn h_num_val(x: Number)
    requires
        x.wf(),
    ensures
        x.vd() > 0,
        x is Special ==> x.vd() == 1 && (x.vn() == -1 || x.vn() == 0 || x.vn() == 1),
{
    match x {
        Number::Special(_) => {},
        Number::Other(_, c) => {
            crate::lemma_clog_val(c);
        },
    }
}

/// Folding the primer of the operand into the coefficients evaluates to the
/// same pair over the inner stream's value as the original coefficients
/// over the operand's value.
proof fn h_fold_identity(
    nx: int, n: int, dx: int, d: int,
    fnx: int, fn2: int, fdx: int, fd2: int,
    pr: Option<Primer>, cp: int, cq: int, xvn: int, xvd: int,
)
    requires
        match pr {
            None => fnx == nx && fn2 == n && fdx == dx && fd2 == d && xvn == cp && xvd == cq,
            Some(Primer::Turn) => fnx == n && fn2 == nx && fdx == d && fd2 == dx
                && xvn == cq && xvd == cp,
            Some(Primer::Reflect) => fnx == -nx && fn2 == n && fdx == -dx && fd2 == d
                && xvn == -cp && xvd == cq,
            Some(Primer::Ground) => fnx == n && fn2 == -nx && fdx == d && fd2 == -dx
                && xvn == -cq && xvd == cp,
        },
    ensures
        av(fnx, fn2, cp, cq) == av(nx, n, xvn, xvd),
        av(fdx, fd2, cp, cq) == av(dx, d, xvn, xvd),
{
    match pr {
        None => {},
        Some(Primer::Turn) => {
            assert(n * cp + nx * cq == nx * cq + n * cp
                && d * cp + dx * cq == dx * cq + d * cp) by (nonlinear_arith);
        },
        Some(Primer::Reflect) => {
            assert((-nx) * cp + n * cq == nx * (-cp) + n * cq
                && (-dx) * cp + d * cq == dx * (-cp) + d * cq) by (nonlinear_arith);
        },
        Some(Primer::Ground) => {
            assert(n * cp + (-nx) * cq == nx * (-cq) + n * cp
                && d * cp + (-dx) * cq == dx * (-cq) + d * cp) by (nonlinear_arith);
        },
    }
}

} // verus!
