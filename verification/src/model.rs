//! Data model of the simulation and the exact mathematical description of
//! each pipeline stage.
//!
//! Geometry lives in fixed-point integers: one world unit is `UNIT`
//! sub-units. Every stage below is described over `int`, with truncating
//! division (`tdiv`) and the floor square root (`isqrt_at`) standing for the
//! exact rounding the executable code performs.

use vstd::prelude::*;
use crate::math::{tdiv, isqrt_at};

verus! {

/// Sub-units per world unit of length (and per second of time): 2^16.
pub const UNIT: i64 = 65536;

/// `UNIT * UNIT`, the divisor that rescales `acceleration * dt * dt`: 2^32.
pub const UNIT_SQ: i64 = 4294967296;

/// Cap on the magnitude of every configuration scalar: 2^26.
pub const CFG_LIMIT: i64 = 67108864;

/// Most particles a system may hold: 2^16.
pub const COUNT_LIMIT: usize = 65536;

/// Most links a system may hold: 2^20.
pub const LINK_LIMIT: usize = 1048576;

/// Cap on a stored rest length: 2^32.
pub const REST_LIMIT: i64 = 4294967296;

/// Coordinate cap for newly added particles, so that a fresh particle's
/// previous position satisfies what a tick asks of it: 2^28.
pub const COORD_LIMIT: i64 = 268435456;

/// Coordinate cap under which a link may be created: 2^30.
pub const LINK_COORD_LIMIT: i64 = 1073741824;

/// Cap on accumulated acceleration entering a whole tick: 2^28.
pub const ACC_TICK_LIMIT: i64 = 268435456;

/// Positions after a whole tick stay under 2^40.
pub const TICK_POS_OUT: i64 = 1099511627776;

/// Previous positions after a whole tick stay under 2^28.
pub const TICK_OLD_OUT: i64 = 268435456;

/// Largest time step accepted by the integrator: 2^20 (16 seconds).
pub const DT_LIMIT: u64 = 1048576;

/// Coordinate cap accepted by the collision pass: 2^56.
pub const COLLIDE_IN: i64 = 72057594037927936;

/// Coordinate cap guaranteed after the collision pass, and accepted by the
/// link solver: 2^59.
pub const LINKS_IN: i64 = 576460752303423488;

/// Coordinate cap guaranteed after the link solver, and accepted by the
/// boundary pass and the integrator: 2^60.
pub const STAGE_LIMIT: i64 = 1152921504606846976;

/// Coordinate cap guaranteed after the boundary pass: 2^28.
pub const BOUND_OUT: i64 = 268435456;

/// Acceleration cap accepted by the integrator: 2^30.
pub const ACC_LIMIT: i64 = 1073741824;

/// Position cap guaranteed by the integrator: 2^62.
pub const INTEG_OUT: i64 = 4611686018427387904;

/// A 2D point or vector in fixed-point sub-units.
#[derive(Clone, Copy, Debug, PartialEq, Eq, Structural)]
pub struct Vec2 {
    pub x: i64,
    pub y: i64,
}

/// A distance constraint between the particles with ids `a` and `b`,
/// holding the separation the pair had when the link was created.
#[derive(Clone, Copy, Debug, PartialEq, Eq, Structural)]
pub struct Link {
    pub a: usize,
    pub b: usize,
    pub rest: i64,
}

/// What a simulation call can fail with.
#[derive(Clone, Copy, Debug, PartialEq, Eq, Structural)]
pub enum SimError {
    /// A particle id at or past the live count.
    InvalidParticleId,
    /// A zero-length direction vector that cannot be normalized.
    DegenerateGeometry,
}

/// The fixed physical constants of a system.
#[derive(Clone, Copy, Debug, PartialEq, Eq, Structural)]
pub struct SimConfig {
    /// Downward acceleration applied by each substep, in sub-units per
    /// second squared.
    pub gravity: i64,
    /// Center of the circular containment region.
    pub center: Vec2,
    /// Outer radius of the containment region.
    pub radius: i64,
    /// Margin kept from the outer radius: particles are confined to
    /// `radius - margin` from the center.
    pub margin: i64,
    /// Effective collision diameter of a particle pair.
    pub diameter: i64,
    /// Substeps run by one tick.
    pub substeps: u64,
}

/// Bounds that keep every stage of the pipeline free of overflow.
pub open spec fn cfg_ok(c: SimConfig) -> bool {
    &&& -CFG_LIMIT <= c.gravity <= CFG_LIMIT
    &&& -CFG_LIMIT <= c.center.x <= CFG_LIMIT
    &&& -CFG_LIMIT <= c.center.y <= CFG_LIMIT
    &&& 0 < c.margin < c.radius <= CFG_LIMIT
    &&& c.radius - c.margin >= 5
    &&& 0 < c.diameter <= CFG_LIMIT
    &&& 1 <= c.substeps <= 64
}

/// Both coordinates within `b` of zero.
pub open spec fn in_bound(v: Vec2, b: int) -> bool {
    &&& -b <= v.x <= b
    &&& -b <= v.y <= b
}

/// Every point of the sequence within `b` of zero.
pub open spec fn all_in_bound(s: Seq<Vec2>, b: int) -> bool {
    forall|i: int| 0 <= i < s.len() ==> in_bound(#[trigger] s[i], b)
}

/// Build a point from the mathematical coordinates; exact whenever they fit
/// in `i64`.
pub open spec fn v2i(x: int, y: int) -> Vec2 {
    Vec2 { x: x as i64, y: y as i64 }
}

/// Squared Euclidean distance between two points.
pub open spec fn dist2_at(p: Vec2, q: Vec2) -> int {
    (p.x - q.x) * (p.x - q.x) + (p.y - q.y) * (p.y - q.y)
}

/// Euclidean distance, rounded down to an integer.
pub open spec fn dist_at(p: Vec2, q: Vec2) -> int {
    isqrt_at(dist2_at(p, q))
}

/// Adding the same acceleration to every particle.
pub open spec fn acc_add_at(acc: Seq<Vec2>, g: Vec2) -> Seq<Vec2> {
    Seq::new(acc.len(), |i: int| v2i(acc[i].x + g.x, acc[i].y + g.y))
}

/// One Verlet step of a single particle: velocity is the last displacement,
/// and the accumulated acceleration contributes `a * dt * dt` rescaled from
/// sub-units of time.
pub open spec fn verlet_pt(p: Vec2, o: Vec2, a: Vec2, dt: int) -> Vec2 {
    v2i(
        p.x + (p.x - o.x) + tdiv(a.x * dt * dt, UNIT_SQ as int),
        p.y + (p.y - o.y) + tdiv(a.y * dt * dt, UNIT_SQ as int),
    )
}

/// Positions after one integration step.
pub open spec fn integ_at(pos: Seq<Vec2>, oldp: Seq<Vec2>, acc: Seq<Vec2>, dt: int) -> Seq<Vec2> {
    Seq::new(pos.len(), |i: int| verlet_pt(pos[i], oldp[i], acc[i], dt))
}

/// A sequence of zero vectors: the accumulated accelerations after an
/// integration step.
pub open spec fn zero_acc(n: nat) -> Seq<Vec2> {
    Seq::new(n, |i: int| Vec2 { x: 0, y: 0 })
}

/// Where the boundary pass puts one particle: a particle farther than `r`
/// from the center is pulled back onto the ring of radius `r`, along its own
/// direction from the center.
pub open spec fn clamp_pt(p: Vec2, c: Vec2, r: int) -> Vec2 {
    let dx = p.x - c.x;
    let dy = p.y - c.y;
    let d = isqrt_at(dx * dx + dy * dy);
    if d > r {
        v2i(c.x + tdiv(dx * r, d), c.y + tdiv(dy * r, d))
    } else {
        p
    }
}

/// Positions after the boundary pass.
pub open spec fn clamp_all_at(pos: Seq<Vec2>, c: Vec2, r: int) -> Seq<Vec2> {
    Seq::new(pos.len(), |i: int| clamp_pt(pos[i], c, r))
}

/// Solving one link: both endpoints move symmetrically along the line
/// between them by half the rest-length error. A zero separation cannot be
/// normalized, so such a pair is skipped (the degenerate-geometry case).
pub open spec fn link_step(pos: Seq<Vec2>, l: Link) -> Seq<Vec2> {
    let a = l.a as int;
    let b = l.b as int;
    let dx = pos[a].x - pos[b].x;
    let dy = pos[a].y - pos[b].y;
    let d = isqrt_at(dx * dx + dy * dy);
    if d == 0 {
        pos
    } else {
        let delta = l.rest - d;
        let tx = tdiv(delta * dx, 2 * d);
        let ty = tdiv(delta * dy, 2 * d);
        pos.update(a, v2i(pos[a].x + tx, pos[a].y + ty)).update(
            b,
            v2i(pos[b].x - tx, pos[b].y - ty),
        )
    }
}

/// Positions after solving the links from index `j` on, in creation order,
/// each link seeing the positions the earlier links left behind.
pub open spec fn links_from(pos: Seq<Vec2>, links: Seq<Link>, j: int) -> Seq<Vec2>
    decreases links.len() - j,
{
    if j < 0 || j >= links.len() {
        pos
    } else {
        links_from(link_step(pos, links[j]), links, j + 1)
    }
}

/// Resolving one unordered pair: if the squared separation is under the
/// squared diameter, the pair is pushed apart along the line between them by
/// three sixteenths of the penetration each; a coincident pair is skipped.
pub open spec fn pair_step(pos: Seq<Vec2>, i: int, k: int, dia: int) -> Seq<Vec2> {
    let dx = pos[i].x - pos[k].x;
    let dy = pos[i].y - pos[k].y;
    let d2 = dx * dx + dy * dy;
    if d2 < dia * dia {
        let d = isqrt_at(d2);
        if d == 0 {
            pos
        } else {
            let tx = tdiv(3 * (d - dia) * dx, 16 * d);
            let ty = tdiv(3 * (d - dia) * dy, 16 * d);
            pos.update(i, v2i(pos[i].x - tx, pos[i].y - ty)).update(
                k,
                v2i(pos[k].x + tx, pos[k].y + ty),
            )
        }
    } else {
        pos
    }
}

/// Positions after checking particle `i` against the particles from `k` up
/// to `n`, the particle count.
pub open spec fn collide_inner(pos: Seq<Vec2>, n: int, i: int, k: int, dia: int) -> Seq<Vec2>
    decreases n - k,
{
    if k < 0 || k >= n {
        pos
    } else {
        collide_inner(pair_step(pos, i, k, dia), n, i, k + 1, dia)
    }
}

/// Positions after the all-pairs collision pass from particle `i` on, pairs
/// taken in index order.
pub open spec fn collide_from(pos: Seq<Vec2>, n: int, i: int, dia: int) -> Seq<Vec2>
    decreases n - i,
{
    if i < 0 || i >= n {
        pos
    } else {
        collide_from(collide_inner(pos, n, i, i + 1, dia), n, i + 1, dia)
    }
}

/// One substep of the pipeline, in its load-bearing order: gravity,
/// collisions, links, boundary, then integration over `dt` sub-units of
/// time. Returns positions, previous positions, and accelerations.
pub open spec fn substep_at(
    pos: Seq<Vec2>,
    oldp: Seq<Vec2>,
    acc: Seq<Vec2>,
    links: Seq<Link>,
    cfg: SimConfig,
    dt: int,
) -> (Seq<Vec2>, Seq<Vec2>, Seq<Vec2>) {
    let a1 = acc_add_at(acc, Vec2 { x: 0, y: cfg.gravity });
    let p1 = collide_from(pos, pos.len() as int, 0, cfg.diameter as int);
    let p2 = links_from(p1, links, 0);
    let p3 = clamp_all_at(p2, cfg.center, cfg.radius - cfg.margin);
    (integ_at(p3, oldp, a1, dt), p3, zero_acc(acc.len()))
}

/// `k` substeps, each over the state the previous one produced.
pub open spec fn ticks_at(
    pos: Seq<Vec2>,
    oldp: Seq<Vec2>,
    acc: Seq<Vec2>,
    links: Seq<Link>,
    cfg: SimConfig,
    dt: int,
    k: int,
) -> (Seq<Vec2>, Seq<Vec2>, Seq<Vec2>)
    decreases k,
{
    if k <= 0 {
        (pos, oldp, acc)
    } else {
        let s = substep_at(pos, oldp, acc, links, cfg, dt);
        ticks_at(s.0, s.1, s.2, links, cfg, dt, k - 1)
    }
}

} // verus!
