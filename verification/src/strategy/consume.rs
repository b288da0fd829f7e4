//! Bounded extraction: drain a stream into one-variable transform
//! coefficients until it exhausts or the coefficients approach the integer
//! range, and hand back the residual stream in the latter case.

use vstd::prelude::*;
use crate::protocol::Reduction;
use crate::rat::{cl_len, av, scaled, lemma_fold_amplify, lemma_fold_uncover, lemma_fold_exhausted};
use crate::strategy::support;
use crate::{Clog, Error, lemma_clog_val};

verus! {

/// The safety margin: folding may continue while every coefficient
/// magnitude stays below a quarter of the integer range.
pub open spec fn margin_ok(v: int) -> bool {
    -(isize::MAX as int) / 4 < v < (isize::MAX as int) / 4
}

/// A stream being drained into one-variable transform coefficients.
pub struct Consume {
    pub(crate) x: Clog,
    pub(crate) nx: isize,
    pub(crate) n: isize,
    pub(crate) dx: isize,
    pub(crate) d: isize,
}

impl Consume {
    /// Structural invariant of the drained stream.
    pub closed spec fn wf(self) -> bool {
        self.x.wf()
    }

    /// The drained stream is in the value model.
    pub closed spec fn modeled_inner(self) -> bool {
        self.x.modeled()
    }

    /// Build the drain over a stream with starting coefficients.
    pub(crate) fn new(x: Clog, nx: isize, n: isize, dx: isize, d: isize) -> (r: Consume)
        ensures
            r.x == x,
            r.nx == nx && r.n == n && r.dx == dx && r.d == d,
    {
        Consume { x, nx, n, dx, d }
    }

    /// Fold one halving of the stream value into the coefficients.
    fn amplify_x(&mut self)
        requires
            margin_ok(old(self).nx as int), margin_ok(old(self).n as int),
            margin_ok(old(self).dx as int), margin_ok(old(self).d as int),
        ensures
            final(self).x == old(self).x,
            (2 * (final(self).nx as int) == old(self).nx as int
                && final(self).n == old(self).n
                && 2 * (final(self).dx as int) == old(self).dx as int
                && final(self).d == old(self).d)
            || (final(self).nx == old(self).nx
                && final(self).n as int == 2 * (old(self).n as int)
                && final(self).dx == old(self).dx
                && final(self).d as int == 2 * (old(self).d as int)),
    {
        if !support::is_even(self.nx) || !support::is_even(self.dx) {
            self.n = 2 * self.n;
            self.d = 2 * self.d;
        } else {
            self.nx = support::half(self.nx);
            self.dx = support::half(self.dx);
        }
    }

    /// Fold one reciprocate-and-subtract step of the stream value into the
    /// coefficients.
    fn uncover_x(&mut self)
        requires
            margin_ok(old(self).nx as int), margin_ok(old(self).n as int),
            margin_ok(old(self).dx as int), margin_ok(old(self).d as int),
        ensures
            final(self).x == old(self).x,
            final(self).nx == old(self).n,
            final(self).n as int == old(self).nx as int + old(self).n as int,
            final(self).dx == old(self).d,
            final(self).d as int == old(self).dx as int + old(self).d as int,
    {
        let snx = self.nx + self.n;
        let sdx = self.dx + self.d;
        self.nx = self.n;
        self.n = snx;
        self.dx = self.d;
        self.d = sdx;
    }

    /// A coefficient has approached the integer range: folding must stop.
    fn is_state_unsafe(&self) -> (r: bool)
        ensures
            !r ==> margin_ok(self.nx as int) && margin_ok(self.n as int)
                && margin_ok(self.dx as int) && margin_ok(self.d as int),
    {
        let lim: isize = isize::MAX / 4;
        self.nx >= lim || self.nx <= -lim || self.n >= lim || self.n <= -lim
            || self.dx >= lim || self.dx <= -lim || self.d >= lim || self.d <= -lim
    }

    /// Drain the stream until it exhausts or a coefficient approaches the
    /// integer range; hand back the residual stream in the latter case.
    #[verifier::loop_isolation(false)]
    pub(crate) fn consume(self) -> (r: Result<(Option<Clog>, isize, isize, isize, isize), Error>)
        requires
            self.x.wf(),
            self.x.modeled(),
            margin_ok(self.nx as int), margin_ok(self.n as int),
            margin_ok(self.dx as int), margin_ok(self.d as int),
        ensures
            self.x.direct() ==> r is Ok,
            match r {
                Ok((res, nx, n, dx, d)) => {
                    let rn = match res { Some(c) => c.vn(), None => 1int };
                    let rd = match res { Some(c) => c.vd(), None => 2int };
                    &&& (match res {
                        Some(c) => c.wf() && c.modeled() && (self.x.direct() ==> c.direct()),
                        None => true,
                    })
                    &&& scaled(
                        av(nx as int, n as int, rn, rd),
                        av(dx as int, d as int, rn, rd),
                        av(self.nx as int, self.n as int, self.x.vn(), self.x.vd()),
                        av(self.dx as int, self.d as int, self.x.vn(), self.x.vd()),
                    )
                },
                Err(_) => true,
            },
    {
        let ghost p0 = av(self.nx as int, self.n as int, self.x.vn(), self.x.vd());
        let ghost q0 = av(self.dx as int, self.d as int, self.x.vn(), self.x.vd());
        let mut me = self;
        loop
            invariant
                me.x.wf(),
                me.x.modeled(),
                self.x.direct() ==> me.x.direct(),
                margin_ok(me.nx as int), margin_ok(me.n as int),
                margin_ok(me.dx as int), margin_ok(me.d as int),
                scaled(
                    av(me.nx as int, me.n as int, me.x.vn(), me.x.vd()),
                    av(me.dx as int, me.d as int, me.x.vn(), me.x.vd()),
                    p0, q0,
                ),
            decreases cl_len(me.x.vn(), me.x.vd()),
        {
            proof {
                lemma_clog_val(me.x);
            }
            let ghost bn = me.x.vn();
            let ghost bd = me.x.vd();
            let ghost cnx = me.nx as int;
            let ghost cn = me.n as int;
            let ghost cdx = me.dx as int;
            let ghost cd = me.d as int;
            let sym = match me.x.egest() {
                Ok(s) => s,
                Err(e) => { return Err(e); },
            };
            proof {
                lemma_clog_val(me.x);
                if sym is Some {
                    crate::rat::lemma_cl_len_step(sym, bn, bd, me.x.vn(), me.x.vd());
                }
            }
            match sym {
                Some(Reduction::Amplify) => {
                    me.amplify_x();
                    proof {
                        lemma_fold_amplify(
                            cnx, cn, cdx, cd,
                            me.nx as int, me.n as int, me.dx as int, me.d as int,
                            bn, bd, me.x.vn(), me.x.vd(),
                        );
                        crate::rat::lemma_scaled_trans(
                            av(me.nx as int, me.n as int, me.x.vn(), me.x.vd()),
                            av(me.dx as int, me.d as int, me.x.vn(), me.x.vd()),
                            av(cnx, cn, bn, bd),
                            av(cdx, cd, bn, bd),
                            p0, q0,
                        );
                    }
                },
                Some(Reduction::Uncover) => {
                    me.uncover_x();
                    proof {
                        lemma_fold_uncover(
                            cnx, cn, cdx, cd,
                            me.nx as int, me.n as int, me.dx as int, me.d as int,
                            bn, bd, me.x.vn(), me.x.vd(),
                        );
                        crate::rat::lemma_scaled_trans(
                            av(me.nx as int, me.n as int, me.x.vn(), me.x.vd()),
                            av(me.dx as int, me.d as int, me.x.vn(), me.x.vd()),
                            av(cnx, cn, bn, bd),
                            av(cdx, cd, bn, bd),
                            p0, q0,
                        );
                    }
                },
                None => {
                    proof {
                        lemma_fold_exhausted(cnx, cn, cdx, cd, bn, bd);
                        crate::rat::lemma_scaled_trans(
                            av(cnx, cn, 1, 2),
                            av(cdx, cd, 1, 2),
                            av(cnx, cn, bn, bd),
                            av(cdx, cd, bn, bd),
                            p0, q0,
                        );
                    }
                    return Ok((None, me.nx, me.n, me.dx, me.d));
                },
            }
            if me.is_state_unsafe() {
                return Ok((Some(me.x), me.nx, me.n, me.dx, me.d));
            }
        }
    }
}

} // verus!
