use verlet_core::model::{SimConfig, SimError, Vec2, UNIT};
use verlet_core::system::ParticleSystem;

const U: i64 = UNIT;

fn world(v: Vec2) -> (f64, f64) {
    (v.x as f64 / U as f64, v.y as f64 / U as f64)
}

fn dist_world(a: Vec2, b: Vec2) -> f64 {
    let (ax, ay) = world(a);
    let (bx, by) = world(b);
    ((ax - bx).powi(2) + (ay - by).powi(2)).sqrt()
}

fn default_system() -> ParticleSystem {
    ParticleSystem::new(ParticleSystem::default_config())
}

#[test]
fn default_config_values() {
    let c: SimConfig = ParticleSystem::default_config();
    assert_eq!(c.gravity, 1000 * U);
    assert_eq!(c.center, Vec2 { x: 400 * U, y: 300 * U });
    assert_eq!(c.radius, 300 * U);
    assert_eq!(c.margin, 50 * U);
    assert_eq!(c.diameter, 100 * U);
    assert_eq!(c.substeps, 8);
}

#[test]
fn ids_are_assigned_in_insertion_order() {
    let mut sys = default_system();
    let a = sys.add_particle(Vec2 { x: 300 * U, y: 300 * U });
    let b = sys.add_particle(Vec2 { x: 400 * U, y: 500 * U });
    let c = sys.add_particle(Vec2 { x: 500 * U, y: 300 * U });
    assert_eq!((a, b, c), (0, 1, 2));
    assert_eq!(sys.get_position(0), Ok(Vec2 { x: 300 * U, y: 300 * U }));
    assert_eq!(sys.get_position(1), Ok(Vec2 { x: 400 * U, y: 500 * U }));
    assert_eq!(sys.get_position(2), Ok(Vec2 { x: 500 * U, y: 300 * U }));
    assert_eq!(sys.get_position(3), Err(SimError::InvalidParticleId));
}

#[test]
fn add_link_records_euclidean_distance() {
    let mut sys = default_system();
    sys.add_particle(Vec2 { x: 0, y: 0 });
    sys.add_particle(Vec2 { x: 3 * U, y: 4 * U });
    assert_eq!(sys.add_link(0, 1), Ok(()));
    assert_eq!(sys.links[0].rest, 5 * U);
    assert_eq!(sys.add_link(0, 5), Err(SimError::InvalidParticleId));
    assert_eq!(sys.add_link(7, 1), Err(SimError::InvalidParticleId));
    assert_eq!(sys.links.len(), 1);
}

#[test]
fn integration_moves_by_velocity_exactly() {
    let mut sys = default_system();
    sys.add_particle(Vec2 { x: 100 * U, y: 50 * U });
    // One second under an acceleration of 1000 sub-units/s^2 contributes
    // exactly 1000 sub-units: 1000 * UNIT^2 / UNIT^2.
    sys.apply_global_force(Vec2 { x: 0, y: 1000 });
    sys.integrate(U as u64);
    assert_eq!(sys.get_position(0), Ok(Vec2 { x: 100 * U, y: 50 * U + 1000 }));
    // No acceleration now: the particle keeps its implicit velocity of
    // exactly 1000 sub-units per step, and old_position becomes the
    // previous position.
    sys.integrate(U as u64);
    assert_eq!(sys.get_position(0), Ok(Vec2 { x: 100 * U, y: 50 * U + 2000 }));
    assert_eq!(sys.old_pos[0], Vec2 { x: 100 * U, y: 50 * U + 1000 });
    // Acceleration was reset by the first integration.
    assert_eq!(sys.acc[0], Vec2 { x: 0, y: 0 });
}

#[test]
fn integration_with_zero_velocity_is_a_fixed_point() {
    let mut sys = default_system();
    sys.add_particle(Vec2 { x: 7 * U, y: 9 * U });
    sys.integrate(U as u64 / 60);
    assert_eq!(sys.get_position(0), Ok(Vec2 { x: 7 * U, y: 9 * U }));
}

#[test]
fn boundary_clamps_to_the_ring_axis_aligned() {
    let mut sys = default_system();
    // 400 world units right of the center: well beyond the 250-unit ring.
    sys.add_particle(Vec2 { x: 800 * U, y: 300 * U });
    sys.apply_boundary_constraint();
    assert_eq!(sys.get_position(0), Ok(Vec2 { x: 650 * U, y: 300 * U }));
}

#[test]
fn boundary_clamps_to_the_ring_diagonal() {
    let mut sys = default_system();
    sys.add_particle(Vec2 { x: 700 * U, y: 600 * U });
    sys.apply_boundary_constraint();
    let p = sys.get_position(0).unwrap();
    let center = Vec2 { x: 400 * U, y: 300 * U };
    let d = dist_world(p, center);
    assert!((d - 250.0).abs() < 0.001, "distance after clamp: {}", d);
    // Direction is preserved: the offset stays on the x == y diagonal.
    let (px, py) = world(p);
    assert!(((px - 400.0) - (py - 300.0)).abs() < 0.001);
    assert!(px > 400.0 && py > 300.0);
}

#[test]
fn boundary_leaves_interior_particles_alone() {
    let mut sys = default_system();
    sys.add_particle(Vec2 { x: 450 * U + 123, y: 210 * U + 7 });
    sys.apply_boundary_constraint();
    assert_eq!(sys.get_position(0), Ok(Vec2 { x: 450 * U + 123, y: 210 * U + 7 }));
}

#[test]
fn collision_pushes_overlapping_pair_apart_symmetrically() {
    let mut sys = default_system();
    sys.add_particle(Vec2 { x: 400 * U, y: 300 * U });
    sys.add_particle(Vec2 { x: 450 * U, y: 300 * U });
    sys.resolve_collisions();
    // Penetration 50 units, correction 0.5 * 0.75 * (50 - 100) per pair,
    // half of it per particle: each moves 9.375 units = 614400 sub-units.
    let p0 = sys.get_position(0).unwrap();
    let p1 = sys.get_position(1).unwrap();
    assert_eq!(p0, Vec2 { x: 400 * U - 614400, y: 300 * U });
    assert_eq!(p1, Vec2 { x: 450 * U + 614400, y: 300 * U });
    assert_eq!(p0.x + p1.x, 850 * U);
}

#[test]
fn collision_leaves_separated_pair_bit_identical() {
    let mut sys = default_system();
    // Exactly at the collision diameter: no contact.
    sys.add_particle(Vec2 { x: 300 * U, y: 300 * U });
    sys.add_particle(Vec2 { x: 400 * U, y: 300 * U });
    // And one far away.
    sys.add_particle(Vec2 { x: 100 * U, y: 100 * U });
    sys.resolve_collisions();
    assert_eq!(sys.get_position(0), Ok(Vec2 { x: 300 * U, y: 300 * U }));
    assert_eq!(sys.get_position(1), Ok(Vec2 { x: 400 * U, y: 300 * U }));
    assert_eq!(sys.get_position(2), Ok(Vec2 { x: 100 * U, y: 100 * U }));
}

#[test]
fn coincident_pair_is_skipped_not_corrupted() {
    let mut sys = default_system();
    sys.add_particle(Vec2 { x: 400 * U, y: 300 * U });
    sys.add_particle(Vec2 { x: 400 * U, y: 300 * U });
    sys.resolve_collisions();
    assert_eq!(sys.get_position(0), Ok(Vec2 { x: 400 * U, y: 300 * U }));
    assert_eq!(sys.get_position(1), Ok(Vec2 { x: 400 * U, y: 300 * U }));
    // A link between coincident particles has rest length zero and is
    // skipped by the solver as degenerate geometry.
    assert_eq!(sys.add_link(0, 1), Ok(()));
    assert_eq!(sys.links[0].rest, 0);
    sys.solve_links();
    assert_eq!(sys.get_position(0), Ok(Vec2 { x: 400 * U, y: 300 * U }));
    assert_eq!(sys.get_position(1), Ok(Vec2 { x: 400 * U, y: 300 * U }));
}

#[test]
fn self_link_is_skipped() {
    let mut sys = default_system();
    sys.add_particle(Vec2 { x: 420 * U, y: 330 * U });
    assert_eq!(sys.add_link(0, 0), Ok(()));
    sys.solve_links();
    assert_eq!(sys.get_position(0), Ok(Vec2 { x: 420 * U, y: 330 * U }));
}

#[test]
fn link_relaxation_restores_rest_length() {
    let mut sys = default_system();
    sys.add_particle(Vec2 { x: 300 * U, y: 300 * U });
    sys.add_particle(Vec2 { x: 400 * U, y: 300 * U });
    assert_eq!(sys.add_link(0, 1), Ok(()));
    assert_eq!(sys.links[0].rest, 100 * U);
    // Stretch the pair to 137 world units and relax: the even integer gap
    // closes exactly in one pass, symmetrically about the midpoint.
    sys.pos[1] = Vec2 { x: 437 * U, y: 300 * U };
    sys.solve_links();
    let p0 = sys.get_position(0).unwrap();
    let p1 = sys.get_position(1).unwrap();
    assert_eq!(p1.x - p0.x, 100 * U);
    assert_eq!(p0.x + p1.x, 300 * U + 437 * U);
    assert_eq!(p0.y, 300 * U);
    assert_eq!(p1.y, 300 * U);
    // Repeated passes stay put once the rest length is reached.
    for _ in 0..5 {
        sys.solve_links();
        let q0 = sys.get_position(0).unwrap();
        let q1 = sys.get_position(1).unwrap();
        assert!((q1.x - q0.x - 100 * U).abs() <= 1);
    }
}

#[test]
fn link_relaxation_converges_within_one_subunit() {
    let mut sys = default_system();
    sys.add_particle(Vec2 { x: 300 * U, y: 300 * U });
    sys.add_particle(Vec2 { x: 400 * U, y: 300 * U });
    assert_eq!(sys.add_link(0, 1), Ok(()));
    // An odd gap cannot split evenly: the pass lands within one sub-unit.
    sys.pos[1] = Vec2 { x: 400 * U + 3, y: 300 * U };
    sys.solve_links();
    let p0 = sys.get_position(0).unwrap();
    let p1 = sys.get_position(1).unwrap();
    assert!((p1.x - p0.x - 100 * U).abs() <= 1);
}

#[test]
fn triangle_scene_stays_contained_and_keeps_rest_lengths() {
    let mut sys = default_system();
    sys.add_particle(Vec2 { x: 300 * U, y: 300 * U });
    sys.add_particle(Vec2 { x: 400 * U, y: 500 * U });
    sys.add_particle(Vec2 { x: 500 * U, y: 300 * U });
    assert_eq!(sys.add_link(0, 1), Ok(()));
    assert_eq!(sys.add_link(0, 2), Ok(()));
    assert_eq!(sys.add_link(1, 2), Ok(()));
    let rest: Vec<f64> = sys.links.iter().map(|l| l.rest as f64 / U as f64).collect();
    let dt = (U as u64) / 60;
    sys.advance_tick(dt);
    let center = Vec2 { x: 400 * U, y: 300 * U };
    for id in 0..3 {
        let p = sys.get_position(id).unwrap();
        let d = dist_world(p, center);
        assert!(d <= 250.01, "particle {} at distance {}", id, d);
    }
    let pairs = [(0usize, 1usize), (0, 2), (1, 2)];
    for (j, (a, b)) in pairs.iter().enumerate() {
        let pa = sys.get_position(*a).unwrap();
        let pb = sys.get_position(*b).unwrap();
        let d = dist_world(pa, pb);
        assert!(
            (d - rest[j]).abs() <= 5.0,
            "link {} length {} vs rest {}",
            j,
            d,
            rest[j]
        );
    }
}

#[test]
fn triangle_scene_survives_a_full_second() {
    let mut sys = default_system();
    sys.add_particle(Vec2 { x: 300 * U, y: 300 * U });
    sys.add_particle(Vec2 { x: 400 * U, y: 500 * U });
    sys.add_particle(Vec2 { x: 500 * U, y: 300 * U });
    sys.add_link(0, 1).unwrap();
    sys.add_link(0, 2).unwrap();
    sys.add_link(1, 2).unwrap();
    let rest: Vec<f64> = sys.links.iter().map(|l| l.rest as f64 / U as f64).collect();
    let dt = (U as u64) / 60;
    for _ in 0..60 {
        sys.advance_tick(dt);
    }
    let center = Vec2 { x: 400 * U, y: 300 * U };
    for id in 0..3 {
        let p = sys.get_position(id).unwrap();
        assert!(dist_world(p, center) <= 250.01);
    }
    let pairs = [(0usize, 1usize), (0, 2), (1, 2)];
    for (j, (a, b)) in pairs.iter().enumerate() {
        let pa = sys.get_position(*a).unwrap();
        let pb = sys.get_position(*b).unwrap();
        let d = dist_world(pa, pb);
        assert!(
            (d - rest[j]).abs() <= 20.0,
            "link {} length {} vs rest {}",
            j,
            d,
            rest[j]
        );
    }
}

#[test]
fn unlinked_particles_fall_and_rest_on_the_boundary() {
    let mut sys = default_system();
    sys.add_particle(Vec2 { x: 300 * U, y: 300 * U });
    sys.add_particle(Vec2 { x: 400 * U, y: 500 * U });
    sys.add_particle(Vec2 { x: 500 * U, y: 300 * U });
    let dt = (U as u64) / 60;
    for _ in 0..120 {
        sys.advance_tick(dt);
    }
    let center = Vec2 { x: 400 * U, y: 300 * U };
    for id in 0..3 {
        let p = sys.get_position(id).unwrap();
        let d = dist_world(p, center);
        assert!(d <= 250.01, "particle {} at distance {}", id, d);
        // Gravity has pulled everything into the lower half.
        let (_, py) = world(p);
        assert!(py > 300.0, "particle {} at height {}", id, py);
    }
    // Collisions keep the three bodies from stacking into one point.
    for (a, b) in [(0usize, 1usize), (0, 2), (1, 2)] {
        let pa = sys.get_position(a).unwrap();
        let pb = sys.get_position(b).unwrap();
        assert!(dist_world(pa, pb) > 50.0);
    }
}

#[test]
fn apply_global_force_accumulates_until_integration() {
    let mut sys = default_system();
    sys.add_particle(Vec2 { x: 400 * U, y: 300 * U });
    sys.apply_global_force(Vec2 { x: 3, y: 5 });
    sys.apply_global_force(Vec2 { x: -1, y: 5 });
    assert_eq!(sys.acc[0], Vec2 { x: 2, y: 10 });
    sys.integrate(0);
    assert_eq!(sys.acc[0], Vec2 { x: 0, y: 0 });
}

#[test]
fn ticks_are_deterministic() {
    let build = || {
        let mut sys = default_system();
        sys.add_particle(Vec2 { x: 300 * U, y: 300 * U });
        sys.add_particle(Vec2 { x: 400 * U, y: 500 * U });
        sys.add_particle(Vec2 { x: 500 * U, y: 300 * U });
        sys.add_link(0, 1).unwrap();
        sys.add_link(0, 2).unwrap();
        sys.add_link(1, 2).unwrap();
        sys
    };
    let mut a = build();
    let mut b = build();
    let dt = (U as u64) / 60;
    for _ in 0..30 {
        a.advance_tick(dt);
        b.advance_tick(dt);
    }
    for id in 0..3 {
        assert_eq!(a.get_position(id), b.get_position(id));
    }
}
