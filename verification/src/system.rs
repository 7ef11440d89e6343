//! The particle system: parallel per-particle arrays, the link list, and
//! the substep pipeline that advances them.

use vstd::prelude::*;
use crate::math::{isqrt_at, abs_at, div_trunc, isqrt, lemma_isqrt, lemma_tdiv_bound,
    lemma_coord_le_norm, lemma_shift_range, lemma_push_range};
use crate::model::{Vec2, Link, SimError, SimConfig, cfg_ok, in_bound, all_in_bound, dist_at,
    acc_add_at, verlet_pt, integ_at, zero_acc, clamp_pt, clamp_all_at, link_step, links_from,
    pair_step, collide_inner, collide_from, substep_at, ticks_at, UNIT, UNIT_SQ, CFG_LIMIT, COUNT_LIMIT,
    LINK_LIMIT, REST_LIMIT, COORD_LIMIT, LINK_COORD_LIMIT, ACC_TICK_LIMIT, TICK_POS_OUT,
    TICK_OLD_OUT, DT_LIMIT, COLLIDE_IN, LINKS_IN, STAGE_LIMIT, BOUND_OUT, ACC_LIMIT, INTEG_OUT};

verus! {

/// A link is meaningful when both endpoints are live ids and its rest
/// length is a stored distance.
pub open spec fn link_ok(l: Link, n: int) -> bool {
    &&& (l.a as int) < n
    &&& (l.b as int) < n
    &&& 0 <= l.rest <= REST_LIMIT
}

/// The simulation state: positions, previous positions and accumulated
/// accelerations in parallel arrays indexed by dense particle ids, plus the
/// links and the fixed configuration.
///
/// The fields are public so that specifications can speak about them; all
/// mutation goes through the methods, which keep `wf`.
pub struct ParticleSystem {
    pub pos: Vec<Vec2>,
    pub old_pos: Vec<Vec2>,
    pub acc: Vec<Vec2>,
    pub links: Vec<Link>,
    pub count: usize,
    pub config: SimConfig,
}

impl ParticleSystem {
    /// Structural invariant: the three particle arrays share the live
    /// count, every link points at live ids, and the configuration is in
    /// range.
    pub open spec fn wf(&self) -> bool {
        &&& self.count == self.pos@.len()
        &&& self.old_pos@.len() == self.count
        &&& self.acc@.len() == self.count
        &&& self.count <= COUNT_LIMIT
        &&& self.links@.len() <= LINK_LIMIT
        &&& forall|j: int|
            0 <= j < self.links@.len() ==> link_ok(#[trigger] self.links@[j], self.count as int)
        &&& cfg_ok(self.config)
    }

    /// An empty system under the given configuration.
    pub fn new(config: SimConfig) -> (s: ParticleSystem)
        requires
            cfg_ok(config),
        ensures
            s.wf(),
            s.count == 0,
            s.pos@.len() == 0,
            s.links@.len() == 0,
            s.config == config,
    {
        ParticleSystem {
            pos: Vec::new(),
            old_pos: Vec::new(),
            acc: Vec::new(),
            links: Vec::new(),
            count: 0,
            config,
        }
    }

    /// Appends a particle at rest at `p`: its previous position equals its
    /// position and its accumulated acceleration is zero. Returns the dense
    /// id, the live count before the insertion.
    pub fn add_particle(&mut self, p: Vec2) -> (id: usize)
        requires
            old(self).wf(),
            old(self).count < COUNT_LIMIT,
            in_bound(p, COORD_LIMIT as int),
        ensures
            final(self).wf(),
            id == old(self).count,
            final(self).count == old(self).count + 1,
            final(self).pos@ == old(self).pos@.push(p),
            final(self).old_pos@ == old(self).old_pos@.push(p),
            final(self).acc@ == old(self).acc@.push(Vec2 { x: 0, y: 0 }),
            final(self).links@ == old(self).links@,
            final(self).config == old(self).config,
    {
        let id = self.count;
        self.pos.push(p);
        self.old_pos.push(p);
        self.acc.push(Vec2 { x: 0, y: 0 });
        self.count = self.count + 1;
        id
    }

    /// Links two live particles, capturing the current distance between
    /// them as the rest length. Ids at or past the live count are rejected.
    pub fn add_link(&mut self, a: usize, b: usize) -> (r: Result<(), SimError>)
        requires
            old(self).wf(),
            old(self).links@.len() < LINK_LIMIT,
            all_in_bound(old(self).pos@, LINK_COORD_LIMIT as int),
        ensures
            final(self).wf(),
            a < old(self).count && b < old(self).count ==> {
                &&& r == Ok::<(), SimError>(())
                &&& final(self).links@ == old(self).links@.push(
                    Link {
                        a,
                        b,
                        rest: dist_at(old(self).pos@[a as int], old(self).pos@[b as int]) as i64,
                    },
                )
            },
            !(a < old(self).count && b < old(self).count) ==> {
                &&& r == Err::<(), SimError>(SimError::InvalidParticleId)
                &&& final(self).links@ == old(self).links@
            },
            final(self).pos@ == old(self).pos@,
            final(self).old_pos@ == old(self).old_pos@,
            final(self).acc@ == old(self).acc@,
            final(self).count == old(self).count,
            final(self).config == old(self).config,
    {
        if a >= self.count || b >= self.count {
            return Err(SimError::InvalidParticleId);
        }
        let pa = self.pos[a];
        let pb = self.pos[b];
        proof {
            assert(in_bound(old(self).pos@[a as int], LINK_COORD_LIMIT as int));
            assert(in_bound(old(self).pos@[b as int], LINK_COORD_LIMIT as int));
        }
        let dx: i64 = pa.x - pb.x;
        let dy: i64 = pa.y - pb.y;
        proof {
            assert(0 <= dx * dx <= 0x4000000000000000 && 0 <= dy * dy <= 0x4000000000000000)
                by (nonlinear_arith)
                requires
                    -0x80000000 <= dx <= 0x80000000,
                    -0x80000000 <= dy <= 0x80000000,
            ;
        }
        let d2: i128 = (dx as i128) * (dx as i128) + (dy as i128) * (dy as i128);
        proof {
            lemma_isqrt(d2 as int);
            if isqrt_at(d2 as int) >= 0x100000000 {
                assert(isqrt_at(d2 as int) * isqrt_at(d2 as int) >= 0x100000000 * 0x100000000)
                    by (nonlinear_arith)
                    requires
                        isqrt_at(d2 as int) >= 0x100000000,
                ;
            }
        }
        let d = isqrt(d2 as u128);
        let rest: i64 = d as i64;
        self.links.push(Link { a, b, rest });
        Ok(())
    }

    /// A copy of the current position of the given particle.
    pub fn get_position(&self, id: usize) -> (r: Result<Vec2, SimError>)
        requires
            self.wf(),
        ensures
            id < self.count ==> r == Ok::<Vec2, SimError>(self.pos@[id as int]),
            id >= self.count ==> r == Err::<Vec2, SimError>(SimError::InvalidParticleId),
    {
        if id < self.count {
            Ok(self.pos[id])
        } else {
            Err(SimError::InvalidParticleId)
        }
    }

    /// Adds the given acceleration to every particle's accumulated
    /// acceleration.
    pub fn apply_global_force(&mut self, g: Vec2)
        requires
            old(self).wf(),
            all_in_bound(old(self).acc@, STAGE_LIMIT as int),
            in_bound(g, STAGE_LIMIT as int),
        ensures
            final(self).wf(),
            final(self).acc@ == acc_add_at(old(self).acc@, g),
            final(self).pos@ == old(self).pos@,
            final(self).old_pos@ == old(self).old_pos@,
            final(self).links@ == old(self).links@,
            final(self).count == old(self).count,
            final(self).config == old(self).config,
    {
        let ghost orig = self.acc@;
        let n = self.count;
        let mut i: usize = 0;
        while i < n
            invariant
                i <= n,
                self.acc@.len() == n,
                orig.len() == n,
                all_in_bound(orig, STAGE_LIMIT as int),
                in_bound(g, STAGE_LIMIT as int),
                forall|j: int| 0 <= j < i ==> self.acc@[j] == acc_add_at(orig, g)[j],
                forall|j: int| i <= j < n ==> self.acc@[j] == orig[j],
                self.pos@ == old(self).pos@,
                self.old_pos@ == old(self).old_pos@,
                self.links@ == old(self).links@,
                self.count == old(self).count,
                self.config == old(self).config,
                old(self).wf(),
                n == old(self).count,
            decreases n - i,
        {
            let a = self.acc[i];
            proof {
                assert(self.acc@[i as int] == orig[i as int]);
                assert(in_bound(orig[i as int], STAGE_LIMIT as int));
            }
            self.acc.set(i, Vec2 { x: a.x + g.x, y: a.y + g.y });
            i = i + 1;
        }
        proof {
            assert(self.acc@ =~= acc_add_at(orig, g));
        }
    }

    /// One Verlet integration step over `dt` sub-units of time: velocity is
    /// the displacement since the previous step, the previous position
    /// becomes the current one, and the accumulated acceleration is applied
    /// and then reset to zero.
    pub fn integrate(&mut self, dt: u64)
        requires
            old(self).wf(),
            dt <= DT_LIMIT,
            all_in_bound(old(self).pos@, STAGE_LIMIT as int),
            all_in_bound(old(self).old_pos@, STAGE_LIMIT as int),
            all_in_bound(old(self).acc@, ACC_LIMIT as int),
        ensures
            final(self).wf(),
            final(self).pos@ == integ_at(
                old(self).pos@,
                old(self).old_pos@,
                old(self).acc@,
                dt as int,
            ),
            final(self).old_pos@ == old(self).pos@,
            final(self).acc@ == zero_acc(old(self).count as nat),
            all_in_bound(final(self).pos@, INTEG_OUT as int),
            final(self).links@ == old(self).links@,
            final(self).count == old(self).count,
            final(self).config == old(self).config,
    {
        let ghost op = self.pos@;
        let ghost oo = self.old_pos@;
        let ghost oa = self.acc@;
        let n = self.count;
        let mut i: usize = 0;
        while i < n
            invariant
                i <= n,
                self.pos@.len() == n,
                self.old_pos@.len() == n,
                self.acc@.len() == n,
                op.len() == n,
                oo.len() == n,
                oa.len() == n,
                dt <= DT_LIMIT,
                all_in_bound(op, STAGE_LIMIT as int),
                all_in_bound(oo, STAGE_LIMIT as int),
                all_in_bound(oa, ACC_LIMIT as int),
                forall|j: int| 0 <= j < i ==> self.pos@[j] == integ_at(op, oo, oa, dt as int)[j],
                forall|j: int| 0 <= j < i ==> in_bound(#[trigger] self.pos@[j], INTEG_OUT as int),
                forall|j: int| 0 <= j < i ==> self.old_pos@[j] == op[j],
                forall|j: int| 0 <= j < i ==> self.acc@[j] == (Vec2 { x: 0, y: 0 }),
                forall|j: int| i <= j < n ==> self.pos@[j] == op[j],
                forall|j: int| i <= j < n ==> self.old_pos@[j] == oo[j],
                forall|j: int| i <= j < n ==> self.acc@[j] == oa[j],
                self.links@ == old(self).links@,
                self.count == old(self).count,
                self.config == old(self).config,
                old(self).wf(),
                n == old(self).count,
            decreases n - i,
        {
            let p = self.pos[i];
            let o = self.old_pos[i];
            let a = self.acc[i];
            proof {
                assert(in_bound(op[i as int], STAGE_LIMIT as int));
                assert(in_bound(oo[i as int], STAGE_LIMIT as int));
                assert(in_bound(oa[i as int], ACC_LIMIT as int));
                assert(-0x400000000000000000 <= (a.x as int) * (dt as int) * (dt as int)
                    <= 0x400000000000000000 && -0x400000000000000000 <= (a.y as int) * (
                dt as int) * (dt as int) <= 0x400000000000000000 && -0x4000000000000
                    <= (a.x as int) * (dt as int) <= 0x4000000000000 && -0x4000000000000 <= (
                a.y as int) * (dt as int) <= 0x4000000000000) by (nonlinear_arith)
                    requires
                        -0x40000000 <= a.x <= 0x40000000,
                        -0x40000000 <= a.y <= 0x40000000,
                        0 <= dt <= 0x100000,
                ;
                assert((UNIT_SQ as int) * 0x4000000000 == 0x400000000000000000);
            }
            let tx = div_trunc((a.x as i128) * (dt as i128) * (dt as i128), UNIT_SQ as i128);
            let ty = div_trunc((a.y as i128) * (dt as i128) * (dt as i128), UNIT_SQ as i128);
            proof {
                lemma_tdiv_bound((a.x as int) * (dt as int) * (dt as int), UNIT_SQ as int,
                    0x4000000000);
                lemma_tdiv_bound((a.y as int) * (dt as int) * (dt as int), UNIT_SQ as int,
                    0x4000000000);
            }
            let np = Vec2 {
                x: p.x + (p.x - o.x) + (tx as i64),
                y: p.y + (p.y - o.y) + (ty as i64),
            };
            self.pos.set(i, np);
            self.old_pos.set(i, p);
            self.acc.set(i, Vec2 { x: 0, y: 0 });
            proof {
                assert(np == verlet_pt(op[i as int], oo[i as int], oa[i as int], dt as int));
            }
            i = i + 1;
        }
        proof {
            assert(self.pos@ =~= integ_at(op, oo, oa, dt as int));
            assert(self.old_pos@ =~= op);
            assert(self.acc@ =~= zero_acc(old(self).count as nat));
        }
    }

    /// Confines every particle to the circle of radius `radius - margin`
    /// around the configured center: a particle farther out is pulled back
    /// onto that ring along its own direction from the center.
    pub fn apply_boundary_constraint(&mut self)
        requires
            old(self).wf(),
            all_in_bound(old(self).pos@, STAGE_LIMIT as int),
        ensures
            final(self).wf(),
            final(self).pos@ == clamp_all_at(
                old(self).pos@,
                old(self).config.center,
                old(self).config.radius - old(self).config.margin,
            ),
            all_in_bound(final(self).pos@, BOUND_OUT as int),
            final(self).old_pos@ == old(self).old_pos@,
            final(self).acc@ == old(self).acc@,
            final(self).links@ == old(self).links@,
            final(self).count == old(self).count,
            final(self).config == old(self).config,
    {
        let ghost op = self.pos@;
        let c = self.config.center;
        let rr: i64 = self.config.radius - self.config.margin;
        let ghost rri = rr as int;
        let n = self.count;
        let mut i: usize = 0;
        while i < n
            invariant
                i <= n,
                self.pos@.len() == n,
                op.len() == n,
                all_in_bound(op, STAGE_LIMIT as int),
                c == self.config.center,
                rri == rr,
                rr == self.config.radius - self.config.margin,
                forall|j: int| 0 <= j < i ==> self.pos@[j] == clamp_all_at(op, c, rri)[j],
                forall|j: int| 0 <= j < i ==> in_bound(#[trigger] self.pos@[j], BOUND_OUT as int),
                forall|j: int| i <= j < n ==> self.pos@[j] == op[j],
                self.old_pos@ == old(self).old_pos@,
                self.acc@ == old(self).acc@,
                self.links@ == old(self).links@,
                self.count == old(self).count,
                self.config == old(self).config,
                old(self).wf(),
                n == old(self).count,
            decreases n - i,
        {
            let p = self.pos[i];
            proof {
                assert(in_bound(op[i as int], STAGE_LIMIT as int));
            }
            let dx: i64 = p.x - c.x;
            let dy: i64 = p.y - c.y;
            proof {
                assert(0 <= dx * dx <= 0x40000000000000000000000000000000 && 0 <= dy * dy
                    <= 0x40000000000000000000000000000000 && dx * dx + dy * dy
                    < 0x40000000000000000000000000000000) by (nonlinear_arith)
                    requires
                        -0x2000000000000000 <= dx <= 0x2000000000000000,
                        -0x2000000000000000 <= dy <= 0x2000000000000000,
                ;
            }
            let d2: i128 = (dx as i128) * (dx as i128) + (dy as i128) * (dy as i128);
            let d: u128 = isqrt(d2 as u128);
            proof {
                lemma_isqrt(d2 as int);
                lemma_coord_le_norm(dx as int, dy as int);
            }
            if d > rr as u128 {
                proof {
                    if d >= 0x8000000000000000 {
                        assert((d as int) * (d as int) >= 0x40000000000000000000000000000000)
                            by (nonlinear_arith)
                            requires
                                d >= 0x8000000000000000,
                        ;
                    }
                    lemma_coord_le_norm(dy as int, dx as int);
                    assert(abs_at((dx as int) * rri) == abs_at(dx as int) * rri && abs_at(
                        (dy as int) * rri,
                    ) == abs_at(dy as int) * rri) by (nonlinear_arith)
                        requires
                            rri > 0,
                    ;
                    assert(abs_at(dy as int) <= d as int);
                    assert(abs_at((dx as int) * rri) <= (d as int) * rri) by (nonlinear_arith)
                        requires
                            rri > 0,
                            abs_at(dx as int) <= d as int,
                            abs_at((dx as int) * rri) == abs_at(dx as int) * rri,
                    ;
                    assert(abs_at((dy as int) * rri) <= (d as int) * rri) by (nonlinear_arith)
                        requires
                            rri > 0,
                            abs_at(dy as int) <= d as int,
                            abs_at((dy as int) * rri) == abs_at(dy as int) * rri,
                    ;
                    assert((d as int) * rri < 0x20000000000000000000000) by (nonlinear_arith)
                        requires
                            0 < d < 0x8000000000000000,
                            0 < rri <= 0x4000000,
                    ;
                    lemma_tdiv_bound((dx as int) * rri, d as int, rri);
                    lemma_tdiv_bound((dy as int) * rri, d as int, rri);
                }
                let nx = div_trunc((dx as i128) * (rr as i128), d as i128);
                let ny = div_trunc((dy as i128) * (rr as i128), d as i128);
                let np = Vec2 { x: c.x + (nx as i64), y: c.y + (ny as i64) };
                self.pos.set(i, np);
                proof {
                    assert(np == clamp_pt(op[i as int], c, rri));
                }
            } else {
                proof {
                    lemma_coord_le_norm(dy as int, dx as int);
                    assert(abs_at(dx as int) <= d as int && abs_at(dy as int) <= d as int);
                    assert(p == clamp_pt(op[i as int], c, rri));
                    assert(in_bound(p, BOUND_OUT as int));
                }
            }
            i = i + 1;
        }
        proof {
            assert(self.pos@ =~= clamp_all_at(op, c, rri));
        }
    }

    /// One relaxation pass over the links, in creation order: each link
    /// moves its endpoints symmetrically toward the rest length, and later
    /// links see the positions the earlier ones produced. A link whose
    /// endpoints coincide cannot be normalized and is skipped.
    pub fn solve_links(&mut self)
        requires
            old(self).wf(),
            all_in_bound(old(self).pos@, LINKS_IN as int),
        ensures
            final(self).wf(),
            final(self).pos@ == links_from(old(self).pos@, old(self).links@, 0),
            all_in_bound(final(self).pos@, STAGE_LIMIT as int),
            final(self).old_pos@ == old(self).old_pos@,
            final(self).acc@ == old(self).acc@,
            final(self).links@ == old(self).links@,
            final(self).count == old(self).count,
            final(self).config == old(self).config,
    {
        let ghost op = self.pos@;
        let m = self.links.len();
        let mut j: usize = 0;
        while j < m
            invariant
                j <= m,
                m == self.links@.len(),
                m <= LINK_LIMIT,
                self.pos@.len() == old(self).count,
                links_from(self.pos@, self.links@, j as int) == links_from(op, self.links@, 0),
                all_in_bound(self.pos@, LINKS_IN + (j as int) * REST_LIMIT),
                forall|t: int|
                    0 <= t < m ==> link_ok(#[trigger] self.links@[t], old(self).count as int),
                self.old_pos@ == old(self).old_pos@,
                self.acc@ == old(self).acc@,
                self.links@ == old(self).links@,
                self.count == old(self).count,
                self.config == old(self).config,
                old(self).wf(),
            decreases m - j,
        {
            let ghost prev = self.pos@;
            let ghost bnd = LINKS_IN + (j as int) * REST_LIMIT;
            proof {
                assert(bnd <= LINKS_IN + (LINK_LIMIT as int) * REST_LIMIT);
            }
            let l = self.links[j];
            let pa = self.pos[l.a];
            let pb = self.pos[l.b];
            proof {
                assert(link_ok(self.links@[j as int], old(self).count as int));
                assert(in_bound(prev[l.a as int], bnd));
                assert(in_bound(prev[l.b as int], bnd));
            }
            let dx: i64 = pa.x - pb.x;
            let dy: i64 = pa.y - pb.y;
            proof {
                assert(0 <= dx * dx <= 0x10000000000000000000000000000000 && 0 <= dy * dy
                    <= 0x10000000000000000000000000000000) by (nonlinear_arith)
                    requires
                        -0x2000000000000000 <= dx <= 0x2000000000000000,
                        -0x2000000000000000 <= dy <= 0x2000000000000000,
                ;
            }
            let d2: i128 = (dx as i128) * (dx as i128) + (dy as i128) * (dy as i128);
            let d: u128 = isqrt(d2 as u128);
            proof {
                lemma_isqrt(d2 as int);
                if d >= 0x8000000000000000 {
                    assert((d as int) * (d as int) >= 0x40000000000000000000000000000000)
                        by (nonlinear_arith)
                        requires
                            d >= 0x8000000000000000,
                    ;
                }
                lemma_coord_le_norm(dx as int, dy as int);
                lemma_coord_le_norm(dy as int, dx as int);
            }
            if d != 0 {
                proof {
                    lemma_shift_range(l.rest as int, d as int, dx as int);
                    lemma_shift_range(l.rest as int, d as int, dy as int);
                    assert((l.rest as int) - (d as int) <= REST_LIMIT
                        && (d as int) - (l.rest as int) <= d as int);
                }
                let delta: i128 = (l.rest as i128) - (d as i128);
                proof {
                    assert(-0x40000000000000000000000000000000 <= delta * (dx as int)
                        <= 0x40000000000000000000000000000000 && -0x40000000000000000000000000000000
                        <= delta * (dy as int) <= 0x40000000000000000000000000000000)
                        by (nonlinear_arith)
                        requires
                            -0x10000000000000000 <= delta <= 0x10000000000000000,
                            -0x4000000000000000 <= dx <= 0x4000000000000000,
                            -0x4000000000000000 <= dy <= 0x4000000000000000,
                    ;
                }
                let tx = div_trunc(delta * (dx as i128), 2 * (d as i128));
                let ty = div_trunc(delta * (dy as i128), 2 * (d as i128));
                let npa = Vec2 { x: pa.x + (tx as i64), y: pa.y + (ty as i64) };
                let npb = Vec2 { x: pb.x - (tx as i64), y: pb.y - (ty as i64) };
                self.pos.set(l.a, npa);
                self.pos.set(l.b, npb);
                proof {
                    assert(self.pos@ == link_step(prev, self.links@[j as int]));
                    assert(in_bound(npa, bnd + REST_LIMIT) && in_bound(npb, bnd + REST_LIMIT));
                    assert forall|t: int| 0 <= t < self.pos@.len() implies in_bound(
                        #[trigger] self.pos@[t],
                        bnd + REST_LIMIT,
                    ) by {
                        if t != l.a as int && t != l.b as int {
                            assert(self.pos@[t] == prev[t]);
                            assert(in_bound(prev[t], bnd));
                        }
                    }
                }
            } else {
                proof {
                    assert(self.pos@ == link_step(prev, self.links@[j as int]));
                }
            }
            j = j + 1;
        }
        proof {
            assert(links_from(self.pos@, self.links@, m as int) == self.pos@);
        }
    }

    /// All-pairs collision response: every unordered pair of distinct
    /// particles closer than the collision diameter is pushed apart
    /// symmetrically, pairs taken in index order, each seeing the positions
    /// earlier pairs produced. A coincident pair cannot be normalized and is
    /// skipped.
    pub fn resolve_collisions(&mut self)
        requires
            old(self).wf(),
            all_in_bound(old(self).pos@, COLLIDE_IN as int),
        ensures
            final(self).wf(),
            final(self).pos@ == collide_from(
                old(self).pos@,
                old(self).count as int,
                0,
                old(self).config.diameter as int,
            ),
            all_in_bound(final(self).pos@, LINKS_IN as int),
            final(self).old_pos@ == old(self).old_pos@,
            final(self).acc@ == old(self).acc@,
            final(self).links@ == old(self).links@,
            final(self).count == old(self).count,
            final(self).config == old(self).config,
    {
        let ghost op = self.pos@;
        let dia = self.config.diameter;
        let ghost di = dia as int;
        let n = self.count;
        let ghost mut cnt: int = 0;
        let mut i: usize = 0;
        while i < n
            invariant
                i <= n,
                n == self.count,
                n <= COUNT_LIMIT,
                self.pos@.len() == n,
                op.len() == n,
                dia == self.config.diameter,
                di == dia as int,
                0 < di <= CFG_LIMIT,
                collide_from(self.pos@, n as int, i as int, di) == collide_from(
                    op,
                    n as int,
                    0,
                    di,
                ),
                0 <= cnt <= (i as int) * (n as int),
                all_in_bound(self.pos@, COLLIDE_IN + cnt * (CFG_LIMIT as int)),
                self.old_pos@ == old(self).old_pos@,
                self.acc@ == old(self).acc@,
                self.links@ == old(self).links@,
                self.count == old(self).count,
                self.config == old(self).config,
                old(self).wf(),
            decreases n - i,
        {
            let mut k: usize = i + 1;
            while k < n
                invariant
                    i < n,
                    i + 1 <= k <= n,
                    n == self.count,
                    n <= COUNT_LIMIT,
                    self.pos@.len() == n,
                    op.len() == n,
                    dia == self.config.diameter,
                    di == dia as int,
                    0 < di <= CFG_LIMIT,
                    collide_from(
                        collide_inner(self.pos@, n as int, i as int, k as int, di),
                        n as int,
                        i as int + 1,
                        di,
                    ) == collide_from(op, n as int, 0, di),
                    0 <= cnt <= (i as int) * (n as int) + (k as int),
                    all_in_bound(self.pos@, COLLIDE_IN + cnt * (CFG_LIMIT as int)),
                    self.old_pos@ == old(self).old_pos@,
                    self.acc@ == old(self).acc@,
                    self.links@ == old(self).links@,
                    self.count == old(self).count,
                    self.config == old(self).config,
                    old(self).wf(),
                decreases n - k,
            {
                let ghost prev = self.pos@;
                let ghost bnd = COLLIDE_IN + cnt * (CFG_LIMIT as int);
                proof {
                    assert((i as int) * (n as int) + (k as int) <= (n as int) * (n as int)
                        && (n as int) * (n as int) <= 0x100000000) by (nonlinear_arith)
                        requires
                            0 <= i < n,
                            i + 1 <= k <= n,
                            n <= 0x10000,
                    ;
                    assert(cnt * (CFG_LIMIT as int) <= 0x100000000 * (CFG_LIMIT as int))
                        by (nonlinear_arith)
                        requires
                            0 <= cnt <= 0x100000000,
                    ;
                    assert(in_bound(prev[i as int], bnd));
                    assert(in_bound(prev[k as int], bnd));
                }
                let pi = self.pos[i];
                let pk = self.pos[k];
                let dx: i64 = pi.x - pk.x;
                let dy: i64 = pi.y - pk.y;
                proof {
                    assert(0 <= dx * dx <= 0x10000000000000000000000000000000 && 0 <= dy * dy
                        <= 0x10000000000000000000000000000000) by (nonlinear_arith)
                        requires
                            -0x2000000000000000 <= dx <= 0x2000000000000000,
                            -0x2000000000000000 <= dy <= 0x2000000000000000,
                    ;
                    assert(0 < dia * dia <= 0x10000000000000) by (nonlinear_arith)
                        requires
                            0 < dia <= 0x4000000,
                    ;
                }
                let d2: i128 = (dx as i128) * (dx as i128) + (dy as i128) * (dy as i128);
                let diasq: i128 = (dia as i128) * (dia as i128);
                if d2 < diasq {
                    let d: u128 = isqrt(d2 as u128);
                    proof {
                        lemma_isqrt(d2 as int);
                        if d >= dia as u128 {
                            assert((d as int) * (d as int) >= (dia as int) * (dia as int))
                                by (nonlinear_arith)
                                requires
                                    d >= dia > 0,
                            ;
                        }
                        lemma_coord_le_norm(dx as int, dy as int);
                        lemma_coord_le_norm(dy as int, dx as int);
                    }
                    if d != 0 {
                        proof {
                            lemma_push_range(di, d as int, dx as int);
                            lemma_push_range(di, d as int, dy as int);
                            assert(-0x40000000000000000000000000 <= 3 * ((d as int) - di) * (
                            dx as int) <= 0x40000000000000000000000000 && -0x40000000000000000000000000 <= 3
                                * ((d as int) - di) * (dy as int) <= 0x40000000000000000000000000)
                                by (nonlinear_arith)
                                requires
                                    0 < d < di <= 0x4000000,
                                    -0x4000000000000000 <= dx <= 0x4000000000000000,
                                    -0x4000000000000000 <= dy <= 0x4000000000000000,
                            ;
                        }
                        let tx = div_trunc(
                            3 * ((d as i128) - (dia as i128)) * (dx as i128),
                            16 * (d as i128),
                        );
                        let ty = div_trunc(
                            3 * ((d as i128) - (dia as i128)) * (dy as i128),
                            16 * (d as i128),
                        );
                        let npi = Vec2 { x: pi.x - (tx as i64), y: pi.y - (ty as i64) };
                        let npk = Vec2 { x: pk.x + (tx as i64), y: pk.y + (ty as i64) };
                        self.pos.set(i, npi);
                        self.pos.set(k, npk);
                        proof {
                            assert(self.pos@ == pair_step(prev, i as int, k as int, di));
                            assert forall|t: int| 0 <= t < self.pos@.len() implies in_bound(
                                #[trigger] self.pos@[t],
                                bnd + CFG_LIMIT,
                            ) by {
                                if t != i as int && t != k as int {
                                    assert(self.pos@[t] == prev[t]);
                                    assert(in_bound(prev[t], bnd));
                                }
                            }
                        }
                    } else {
                        proof {
                            assert(self.pos@ == pair_step(prev, i as int, k as int, di));
                        }
                    }
                } else {
                    proof {
                        assert(self.pos@ == pair_step(prev, i as int, k as int, di));
                    }
                }
                proof {
                    cnt = cnt + 1;
                    assert(forall|t: int|
                        0 <= t < self.pos@.len() ==> in_bound(
                            #[trigger] self.pos@[t],
                            COLLIDE_IN + cnt * (CFG_LIMIT as int),
                        ));
                }
                k = k + 1;
            }
            proof {
                assert((i as int + 1) * (n as int) == (i as int) * (n as int) + (n as int))
                    by (nonlinear_arith);
            }
            i = i + 1;
        }
        proof {
            assert(collide_from(self.pos@, n as int, n as int, di) == self.pos@);
            assert((n as int) * (n as int) <= 0x100000000) by (nonlinear_arith)
                requires
                    n <= 0x10000,
            ;
            assert(cnt * (CFG_LIMIT as int) <= 0x100000000 * (CFG_LIMIT as int))
                by (nonlinear_arith)
                requires
                    0 <= cnt <= 0x100000000,
            ;
        }
    }

    /// Advances the simulation by one tick of `dt` sub-units of time: the
    /// configured number of substeps, each applying gravity, resolving
    /// collisions, relaxing links, confining to the boundary, and
    /// integrating over `dt / substeps`.
    pub fn advance_tick(&mut self, dt: u64)
        requires
            old(self).wf(),
            dt <= DT_LIMIT,
            all_in_bound(old(self).pos@, TICK_POS_OUT as int),
            all_in_bound(old(self).old_pos@, TICK_OLD_OUT as int),
            all_in_bound(old(self).acc@, ACC_TICK_LIMIT as int),
        ensures
            final(self).wf(),
            (final(self).pos@, final(self).old_pos@, final(self).acc@) == ticks_at(
                old(self).pos@,
                old(self).old_pos@,
                old(self).acc@,
                old(self).links@,
                old(self).config,
                (dt as int) / (old(self).config.substeps as int),
                old(self).config.substeps as int,
            ),
            all_in_bound(final(self).pos@, TICK_POS_OUT as int),
            all_in_bound(final(self).old_pos@, TICK_OLD_OUT as int),
            all_in_bound(final(self).acc@, ACC_TICK_LIMIT as int),
            final(self).links@ == old(self).links@,
            final(self).count == old(self).count,
            final(self).config == old(self).config,
    {
        let ghost p0 = self.pos@;
        let ghost o0 = self.old_pos@;
        let ghost a0 = self.acc@;
        let steps = self.config.substeps;
        let sub = dt / steps;
        proof {
            vstd::arithmetic::div_mod::lemma_div_nonincreasing(dt as int, steps as int);
            vstd::arithmetic::div_mod::lemma_div_pos_is_pos(dt as int, steps as int);
        }
        let ghost gdt = sub as int;
        let mut s: u64 = 0;
        while s < steps
            invariant
                s <= steps,
                steps == self.config.substeps,
                0 <= gdt <= DT_LIMIT,
                gdt == sub,
                self.wf(),
                ticks_at(
                    self.pos@,
                    self.old_pos@,
                    self.acc@,
                    self.links@,
                    self.config,
                    gdt,
                    (steps - s) as int,
                ) == ticks_at(p0, o0, a0, self.links@, self.config, gdt, steps as int),
                all_in_bound(self.pos@, TICK_POS_OUT as int),
                all_in_bound(self.old_pos@, TICK_OLD_OUT as int),
                all_in_bound(self.acc@, ACC_TICK_LIMIT as int),
                self.links@ == old(self).links@,
                self.count == old(self).count,
                self.config == old(self).config,
                old(self).wf(),
            decreases steps - s,
        {
            let ghost pe = self.pos@;
            let ghost oe = self.old_pos@;
            let ghost ae = self.acc@;
            let g = Vec2 { x: 0, y: self.config.gravity };
            self.apply_global_force(g);
            proof {
                assert forall|t: int| 0 <= t < self.acc@.len() implies in_bound(
                    #[trigger] self.acc@[t],
                    ACC_LIMIT as int,
                ) by {
                    assert(in_bound(ae[t], ACC_TICK_LIMIT as int));
                    assert(self.acc@[t] == acc_add_at(ae, g)[t]);
                }
            }
            self.resolve_collisions();
            self.solve_links();
            self.apply_boundary_constraint();
            let ghost p3 = self.pos@;
            self.integrate(sub);
            proof {
                assert forall|t: int| 0 <= t < self.pos@.len() implies in_bound(
                    #[trigger] self.pos@[t],
                    TICK_POS_OUT as int,
                ) by {
                    assert(self.pos@[t] == verlet_pt(p3[t], oe[t], acc_add_at(ae, g)[t], gdt));
                    assert(in_bound(p3[t], BOUND_OUT as int));
                    assert(in_bound(oe[t], TICK_OLD_OUT as int));
                    assert(in_bound(acc_add_at(ae, g)[t], ACC_LIMIT as int));
                    assert(-0x400000000000000000 <= (acc_add_at(ae, g)[t].x as int) * gdt * gdt
                        <= 0x400000000000000000 && -0x400000000000000000 <= (acc_add_at(
                        ae,
                        g,
                    )[t].y as int) * gdt * gdt <= 0x400000000000000000) by (nonlinear_arith)
                        requires
                            -0x40000000 <= acc_add_at(ae, g)[t].x <= 0x40000000,
                            -0x40000000 <= acc_add_at(ae, g)[t].y <= 0x40000000,
                            0 <= gdt <= 0x100000,
                    ;
                    assert((UNIT_SQ as int) * 0x4000000000 == 0x400000000000000000);
                    lemma_tdiv_bound(
                        (acc_add_at(ae, g)[t].x as int) * gdt * gdt,
                        UNIT_SQ as int,
                        0x4000000000,
                    );
                    lemma_tdiv_bound(
                        (acc_add_at(ae, g)[t].y as int) * gdt * gdt,
                        UNIT_SQ as int,
                        0x4000000000,
                    );
                }
                assert forall|t: int| 0 <= t < self.acc@.len() implies in_bound(
                    #[trigger] self.acc@[t],
                    ACC_TICK_LIMIT as int,
                ) by {
                    assert(self.acc@[t] == zero_acc(old(self).count as nat)[t]);
                }
                assert((self.pos@, self.old_pos@, self.acc@) == substep_at(
                    pe,
                    oe,
                    ae,
                    self.links@,
                    self.config,
                    gdt,
                ));
            }
            s = s + 1;
        }
    }

    /// The documented default configuration: gravity of 1000 world units
    /// per second squared pointing down, containment centered at (400, 300)
    /// with radius 300 and margin 50, collision diameter 100, and 8
    /// substeps per tick.
    pub fn default_config() -> (c: SimConfig)
        ensures
            cfg_ok(c),
            c.gravity == 1000 * UNIT,
            c.center.x == 400 * UNIT,
            c.center.y == 300 * UNIT,
            c.radius == 300 * UNIT,
            c.margin == 50 * UNIT,
            c.diameter == 100 * UNIT,
            c.substeps == 8,
    {
        SimConfig {
            gravity: 65536000,
            center: Vec2 { x: 26214400, y: 19660800 },
            radius: 19660800,
            margin: 3276800,
            diameter: 6553600,
            substeps: 8,
        }
    }
}

} // verus!
