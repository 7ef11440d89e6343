//! The general laws of the simulation, stated over the same spec functions
//! the pipeline's contracts use, and proved once and for all inputs.

use vstd::prelude::*;
use crate::math::{tdiv, isqrt_at, abs_at, lemma_isqrt, lemma_isqrt_at_least, lemma_isqrt_square,
    lemma_tdiv, lemma_tdiv_bound, lemma_tdiv_scale, lemma_tdiv_neg, lemma_coord_le_norm,
    lemma_push_range};
use crate::model::{Vec2, Link, in_bound, verlet_pt, pair_step, link_step, clamp_pt, dist2_at, UNIT_SQ,
    CFG_LIMIT, REST_LIMIT, LINKS_IN, STAGE_LIMIT};

verus! {

/// Integration determinism: a particle with zero accumulated acceleration
/// moves by exactly its implicit velocity, and its previous position is
/// exactly overwritten by the position it had — no rounding enters.
pub proof fn lemma_free_particle_integration(p: Vec2, o: Vec2, a: Vec2, dt: int)
    requires
        a.x == 0,
        a.y == 0,
        dt >= 0,
        in_bound(p, STAGE_LIMIT as int),
        in_bound(o, STAGE_LIMIT as int),
    ensures
        verlet_pt(p, o, a, dt).x == p.x + (p.x - o.x),
        verlet_pt(p, o, a, dt).y == p.y + (p.y - o.y),
{
    assert((a.x as int) * dt * dt == 0 && (a.y as int) * dt * dt == 0) by (nonlinear_arith)
        requires
            a.x == 0,
            a.y == 0,
    ;
    lemma_tdiv(0, UNIT_SQ as int);
}

/// Insertion-order id stability: appending a particle to the position
/// array puts it at the index equal to the old live count — the id
/// `add_particle` returns — and moves no earlier particle, so a position
/// read back by id is the one given at insertion.
pub proof fn lemma_insertion_order(s: Seq<Vec2>, p: Vec2)
    ensures
        s.push(p)[s.len() as int] == p,
        forall|i: int| 0 <= i < s.len() ==> s.push(p)[i] == s[i],
{
}

/// Collision separation: a pair at or past the collision diameter is left
/// bit-identical by the pair check; an overlapping, non-coincident pair
/// moves apart symmetrically — the displacements cancel exactly, each
/// separation coordinate keeps its sign and does not shrink, and the
/// squared distance does not decrease. A coincident pair is skipped.
pub proof fn lemma_collision_separation(pos: Seq<Vec2>, i: int, k: int, dia: int)
    requires
        0 <= i < pos.len(),
        0 <= k < pos.len(),
        i != k,
        0 < dia <= CFG_LIMIT,
        in_bound(pos[i], LINKS_IN as int),
        in_bound(pos[k], LINKS_IN as int),
    ensures
        dist2_at(pos[i], pos[k]) >= dia * dia ==> pair_step(pos, i, k, dia) == pos,
        dist2_at(pos[i], pos[k]) == 0 ==> pair_step(pos, i, k, dia) == pos,
        0 < dist2_at(pos[i], pos[k]) < dia * dia ==> {
            let q = pair_step(pos, i, k, dia);
            &&& q[i].x + q[k].x == pos[i].x + pos[k].x
            &&& q[i].y + q[k].y == pos[i].y + pos[k].y
            &&& abs_at(q[i].x - q[k].x) >= abs_at(pos[i].x - pos[k].x)
            &&& abs_at(q[i].y - q[k].y) >= abs_at(pos[i].y - pos[k].y)
            &&& dist2_at(q[i], q[k]) >= dist2_at(pos[i], pos[k])
        },
{
    let dx = pos[i].x - pos[k].x;
    let dy = pos[i].y - pos[k].y;
    let d2 = dx * dx + dy * dy;
    assert(dx * dx >= 0 && dy * dy >= 0) by (nonlinear_arith);
    if 0 < d2 < dia * dia {
        let d = isqrt_at(d2);
        lemma_isqrt(d2);
        lemma_isqrt_at_least(d2, 1);
        assert(d >= 1);
        if d >= dia {
            assert(d * d >= dia * dia) by (nonlinear_arith)
                requires
                    d >= dia > 0,
            ;
        }
        lemma_coord_le_norm(dx, dy);
        lemma_coord_le_norm(dy, dx);
        lemma_push_range(dia, d, dx);
        lemma_push_range(dia, d, dy);
        let tx = tdiv(3 * (d - dia) * dx, 16 * d);
        let ty = tdiv(3 * (d - dia) * dy, 16 * d);
        let q = pair_step(pos, i, k, dia);
        assert(q[i].x == pos[i].x - tx && q[k].x == pos[k].x + tx && q[i].y == pos[i].y - ty
            && q[k].y == pos[k].y + ty);
        let ndx = q[i].x - q[k].x;
        let ndy = q[i].y - q[k].y;
        assert(ndx == dx - 2 * tx && ndy == dy - 2 * ty);
        assert(abs_at(ndx) >= abs_at(dx) && abs_at(ndy) >= abs_at(dy));
        assert(abs_at(ndx) * abs_at(ndx) == ndx * ndx && abs_at(dx) * abs_at(dx) == dx * dx
            && abs_at(ndy) * abs_at(ndy) == ndy * ndy && abs_at(dy) * abs_at(dy) == dy * dy)
            by (nonlinear_arith);
        assert(ndx * ndx >= dx * dx) by (nonlinear_arith)
            requires
                abs_at(ndx) >= abs_at(dx),
                abs_at(ndx) * abs_at(ndx) == ndx * ndx,
                abs_at(dx) * abs_at(dx) == dx * dx,
        ;
        assert(ndy * ndy >= dy * dy) by (nonlinear_arith)
            requires
                abs_at(ndy) >= abs_at(dy),
                abs_at(ndy) * abs_at(ndy) == ndy * ndy,
                abs_at(dy) * abs_at(dy) == dy * dy,
        ;
    }
}

/// Link rest-length preservation under relaxation, for a pair on a shared
/// horizontal line: one relaxation pass moves both endpoints symmetrically
/// along that line — their sum is kept exactly — and brings the separation
/// within one sub-unit of the rest length, never farther from it than the
/// old separation was.
pub proof fn lemma_link_relaxation(pos: Seq<Vec2>, l: Link)
    requires
        pos.len() == 2,
        l.a == 0,
        l.b == 1,
        pos[0].y == pos[1].y,
        pos[0].x != pos[1].x,
        0 <= l.rest <= REST_LIMIT,
        in_bound(pos[0], LINKS_IN as int),
        in_bound(pos[1], LINKS_IN as int),
    ensures
        ({
            let q = link_step(pos, l);
            &&& q[0].y == pos[0].y
            &&& q[1].y == pos[1].y
            &&& q[0].x + q[1].x == pos[0].x + pos[1].x
            &&& abs_at(abs_at(q[0].x - q[1].x) - l.rest) <= 1
            &&& abs_at(abs_at(q[0].x - q[1].x) - l.rest) <= abs_at(
                abs_at(pos[0].x - pos[1].x) - l.rest,
            )
        }),
{
    let dx = pos[0].x - pos[1].x;
    let d2 = dx * dx + 0;
    assert(abs_at(dx) * abs_at(dx) == dx * dx) by (nonlinear_arith);
    lemma_isqrt_square(abs_at(dx));
    let d = isqrt_at(d2);
    assert(d == abs_at(dx));
    assert(d >= 1);
    let delta = l.rest - d;
    let h = tdiv(delta, 2);
    lemma_tdiv(delta, 2);
    let r = delta - 2 * h;
    assert(-1 <= r <= 1);
    assert(delta >= 0 ==> 0 <= r <= 1);
    assert(delta < 0 ==> -1 <= r <= 0);
    assert(r != 0 ==> abs_at(delta) >= 1);
    let tx = tdiv(delta * dx, 2 * d);
    let ty = tdiv(delta * (pos[0].y - pos[1].y), 2 * d);
    assert(delta * (pos[0].y - pos[1].y) == 0) by (nonlinear_arith)
        requires
            pos[0].y == pos[1].y,
    ;
    lemma_tdiv(0, 2 * d);
    assert(ty == 0);
    if dx > 0 {
        assert(delta * dx == delta * d) by (nonlinear_arith)
            requires
                dx == d,
        ;
        lemma_tdiv_scale(delta, 2, d);
        assert(tx == h);
    } else {
        assert(delta * dx == -(delta * d)) by (nonlinear_arith)
            requires
                dx == -d,
        ;
        lemma_tdiv_scale(delta, 2, d);
        lemma_tdiv_neg(delta * d, 2 * d);
        assert(tx == -h);
    }
    let q = link_step(pos, l);
    assert(q[0].x == pos[0].x + tx && q[1].x == pos[1].x - tx && q[0].y == pos[0].y && q[1].y
        == pos[1].y);
    let ndx = q[0].x - q[1].x;
    assert(ndx == dx + 2 * tx);
    if dx > 0 {
        assert(ndx == l.rest - r);
    } else {
        assert(ndx == -(l.rest - r));
    }
    assert(l.rest - r >= 0);
    assert(abs_at(ndx) == l.rest - r);
    assert(abs_at(abs_at(ndx) - l.rest) == abs_at(r));
    assert(abs_at(abs_at(dx) - l.rest) == abs_at(delta));
}

/// Boundary containment: a particle beyond the containment ring of radius
/// `r` is put back onto it — its new distance from the center is between
/// `r - 3` and `r` — and its direction from the center is preserved: each
/// offset coordinate keeps its sign, and the cross product of old and new
/// offsets is bounded by the one sub-unit of rounding per coordinate.
pub proof fn lemma_boundary_containment(p: Vec2, c: Vec2, r: int)
    requires
        in_bound(p, STAGE_LIMIT as int),
        in_bound(c, CFG_LIMIT as int),
        5 <= r <= CFG_LIMIT,
        isqrt_at(dist2_at(p, c)) > r,
    ensures
        ({
            let q = clamp_pt(p, c, r);
            &&& r - 3 <= isqrt_at(dist2_at(q, c)) <= r
            &&& (p.x - c.x >= 0 ==> q.x - c.x >= 0)
            &&& (p.x - c.x <= 0 ==> q.x - c.x <= 0)
            &&& (p.y - c.y >= 0 ==> q.y - c.y >= 0)
            &&& (p.y - c.y <= 0 ==> q.y - c.y <= 0)
            &&& abs_at((q.x - c.x) * (p.y - c.y) - (q.y - c.y) * (p.x - c.x)) <= abs_at(p.x - c.x)
                + abs_at(p.y - c.y)
        }),
{
    let dx = p.x - c.x;
    let dy = p.y - c.y;
    let d2 = dx * dx + dy * dy;
    assert(dx * dx >= 0 && dy * dy >= 0) by (nonlinear_arith);
    let d = isqrt_at(d2);
    lemma_isqrt(d2);
    lemma_coord_le_norm(dx, dy);
    lemma_coord_le_norm(dy, dx);
    let nx = tdiv(dx * r, d);
    let ny = tdiv(dy * r, d);
    lemma_tdiv(dx * r, d);
    lemma_tdiv(dy * r, d);
    assert((dx >= 0 ==> dx * r >= 0) && (dx <= 0 ==> dx * r <= 0) && (dy >= 0 ==> dy * r >= 0) && (
    dy <= 0 ==> dy * r <= 0) && abs_at(dx * r) == abs_at(dx) * r && abs_at(dy * r) == abs_at(dy)
        * r) by (nonlinear_arith)
        requires
            r > 0,
    ;
    assert(abs_at(dx) * r <= d * r && abs_at(dy) * r <= d * r) by (nonlinear_arith)
        requires
            r > 0,
            abs_at(dx) <= d,
            abs_at(dy) <= d,
    ;
    lemma_tdiv_bound(dx * r, d, r);
    lemma_tdiv_bound(dy * r, d, r);
    let e1 = dx * r - nx * d;
    let e2 = dy * r - ny * d;
    assert(abs_at(e1) <= d && abs_at(nx * d) <= abs_at(dx * r)) by (nonlinear_arith)
        requires
            d > 0,
            e1 == dx * r - nx * d,
            dx * r >= 0 ==> nx >= 0 && nx * d <= dx * r && dx * r < nx * d + d,
            dx * r <= 0 ==> nx <= 0 && nx * d >= dx * r && dx * r > nx * d - d,
    ;
    assert(abs_at(e2) <= d && abs_at(ny * d) <= abs_at(dy * r)) by (nonlinear_arith)
        requires
            d > 0,
            e2 == dy * r - ny * d,
            dy * r >= 0 ==> ny >= 0 && ny * d <= dy * r && dy * r < ny * d + d,
            dy * r <= 0 ==> ny <= 0 && ny * d >= dy * r && dy * r > ny * d - d,
    ;
    let q = clamp_pt(p, c, r);
    assert(q.x - c.x == nx && q.y - c.y == ny);
    assert(dist2_at(q, c) == nx * nx + ny * ny);
    let s = nx * nx + ny * ny;
    assert(s * (d * d) == (nx * d) * (nx * d) + (ny * d) * (ny * d) && d2 * (r * r) == (dx * r) * (
    dx * r) + (dy * r) * (dy * r)) by (nonlinear_arith)
        requires
            s == nx * nx + ny * ny,
            d2 == dx * dx + dy * dy,
    ;
    assert(abs_at(nx * d) * abs_at(nx * d) == (nx * d) * (nx * d) && abs_at(dx * r) * abs_at(
        dx * r,
    ) == (dx * r) * (dx * r) && abs_at(ny * d) * abs_at(ny * d) == (ny * d) * (ny * d) && abs_at(
        dy * r,
    ) * abs_at(dy * r) == (dy * r) * (dy * r)) by (nonlinear_arith);
    assert((nx * d) * (nx * d) <= (dx * r) * (dx * r)) by (nonlinear_arith)
        requires
            abs_at(nx * d) <= abs_at(dx * r),
            abs_at(nx * d) * abs_at(nx * d) == (nx * d) * (nx * d),
            abs_at(dx * r) * abs_at(dx * r) == (dx * r) * (dx * r),
    ;
    assert((ny * d) * (ny * d) <= (dy * r) * (dy * r)) by (nonlinear_arith)
        requires
            abs_at(ny * d) <= abs_at(dy * r),
            abs_at(ny * d) * abs_at(ny * d) == (ny * d) * (ny * d),
            abs_at(dy * r) * abs_at(dy * r) == (dy * r) * (dy * r),
    ;
    assert(s * (d * d) <= d2 * (r * r));
    assert(d2 <= d * d + 2 * d) by (nonlinear_arith)
        requires
            d2 < (d + 1) * (d + 1),
            d >= 0,
    ;
    if s > r * r + 2 * r {
        assert(false) by (nonlinear_arith)
            requires
                s >= r * r + 2 * r + 1,
                s * (d * d) <= d2 * (r * r),
                d2 <= d * d + 2 * d,
                d >= r + 1,
                r >= 5,
        ;
    }
    assert(s >= 0) by (nonlinear_arith)
        requires
            s == nx * nx + ny * ny,
    ;
    lemma_isqrt(s);
    if isqrt_at(s) > r {
        assert(isqrt_at(s) * isqrt_at(s) > r * r + 2 * r) by (nonlinear_arith)
            requires
                isqrt_at(s) >= r + 1,
                r >= 5,
        ;
    }
    assert((nx * d) * (nx * d) >= (dx * r) * (dx * r) - 2 * (abs_at(dx) * r) * d)
        by (nonlinear_arith)
        requires
            nx * d == dx * r - e1,
            abs_at(e1) <= d,
            abs_at(dx * r) == abs_at(dx) * r,
            d > 0,
            r > 0,
    ;
    assert((ny * d) * (ny * d) >= (dy * r) * (dy * r) - 2 * (abs_at(dy) * r) * d)
        by (nonlinear_arith)
        requires
            ny * d == dy * r - e2,
            abs_at(e2) <= d,
            abs_at(dy * r) == abs_at(dy) * r,
            d > 0,
            r > 0,
    ;
    assert(2 * (abs_at(dx) * r) * d + 2 * (abs_at(dy) * r) * d <= 4 * (d * d) * r)
        by (nonlinear_arith)
        requires
            abs_at(dx) <= d,
            abs_at(dy) <= d,
            d > 0,
            r > 0,
    ;
    assert(s * (d * d) >= d2 * (r * r) - 4 * (d * d) * r);
    assert(d2 * (r * r) >= (d * d) * (r * r)) by (nonlinear_arith)
        requires
            d2 >= d * d,
            r > 0,
    ;
    assert(s >= r * r - 4 * r) by (nonlinear_arith)
        requires
            s * (d * d) >= d2 * (r * r) - 4 * (d * d) * r,
            d2 >= d * d,
            d > 0,
            r > 0,
    ;
    assert((r - 3) * (r - 3) <= r * r - 4 * r) by (nonlinear_arith)
        requires
            r >= 5,
    ;
    lemma_isqrt_at_least(s, r - 3);
    let cross = nx * dy - ny * dx;
    assert(cross * d == e2 * dx - e1 * dy) by (nonlinear_arith)
        requires
            cross == nx * dy - ny * dx,
            nx * d == dx * r - e1,
            ny * d == dy * r - e2,
    ;
    assert(abs_at(cross) * d <= (abs_at(dx) + abs_at(dy)) * d) by (nonlinear_arith)
        requires
            cross * d == e2 * dx - e1 * dy,
            abs_at(e1) <= d,
            abs_at(e2) <= d,
            d > 0,
    ;
    assert(abs_at(cross) <= abs_at(dx) + abs_at(dy)) by (nonlinear_arith)
        requires
            abs_at(cross) * d <= (abs_at(dx) + abs_at(dy)) * d,
            d > 0,
    ;
}

} // verus!
