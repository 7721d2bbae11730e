use boids::geom::{dist_sq, isqrt_down, isqrt_up, limit, normalize_to, Point};
use boids::params::SteeringParameters;
use boids::trig::{cos_cd, sin_cd, wrap_angle};
use boids::vehicle::{
    accumulate_flock, advance, apply_flock, spawn_random, spawn_vehicle, steer_force,
    steer_vehicle, update_vehicle, wall_avoid_force, AgentState, Vehicle,
};

fn p(x: i64, y: i64, z: i64) -> Point {
    Point { x, y, z }
}

fn still_agent(position: Point, params: &SteeringParameters) -> Vehicle {
    spawn_vehicle(position, p(0, 0, 0), params)
}

#[test]
fn integer_square_roots_are_exact() {
    assert_eq!(isqrt_up(0), 0);
    assert_eq!(isqrt_up(1), 1);
    assert_eq!(isqrt_up(2), 2);
    assert_eq!(isqrt_up(4), 2);
    assert_eq!(isqrt_up(5), 3);
    assert_eq!(isqrt_up(250_000), 500);
    assert_eq!(isqrt_down(0), 0);
    assert_eq!(isqrt_down(3), 1);
    assert_eq!(isqrt_down(4), 2);
    assert_eq!(isqrt_down(99), 9);
}

#[test]
fn distance_is_exact() {
    assert_eq!(dist_sq(&p(1, 2, 3), &p(4, 6, 3)), 25);
    assert_eq!(dist_sq(&p(0, 0, 0), &p(0, 0, 0)), 0);
}

#[test]
fn limiting_rescales_only_long_vectors() {
    // a 3-4-5 vector of length 500 capped at 100 lands exactly on (60, 80)
    let mut v = p(300, 400, 0);
    limit(&mut v, 100);
    assert_eq!(v, p(60, 80, 0));
    // a short vector passes through unchanged
    let mut w = p(30, 40, 0);
    limit(&mut w, 100);
    assert_eq!(w, p(30, 40, 0));
    // the zero vector has no direction and stays zero
    let mut z = p(0, 0, 0);
    limit(&mut z, 50);
    assert_eq!(z, p(0, 0, 0));
}

#[test]
fn normalizing_reaches_the_requested_magnitude() {
    let n = normalize_to(&p(300, 400, 0), 100);
    assert_eq!(n, p(60, 80, 0));
    let z = normalize_to(&p(0, 0, 0), 100);
    assert_eq!(z, p(0, 0, 0));
}

#[test]
fn fixed_point_trig_hits_the_cardinal_values() {
    assert_eq!(sin_cd(0), 0);
    assert_eq!(sin_cd(9_000), 10_000);
    assert_eq!(sin_cd(27_000), -10_000);
    assert_eq!(cos_cd(0), 10_000);
    assert_eq!(cos_cd(18_000), -10_000);
    // Bhaskara's approximation is exact at 30 degrees as well
    assert_eq!(sin_cd(3_000), 5_000);
    assert_eq!(wrap_angle(-100), 35_900);
    assert_eq!(wrap_angle(36_100), 100);
    assert_eq!(wrap_angle(200), 200);
}

#[test]
fn no_neighbor_in_range_means_no_contribution() {
    let params = SteeringParameters::default();
    // two agents four hundred units apart: far outside every trigger
    let snap = vec![
        AgentState { position: p(0, 0, 0), velocity: p(1_000, 0, 0) },
        AgentState { position: p(400_000, 0, 0), velocity: p(-1_000, 0, 0) },
    ];
    let ids = vec![0usize, 1usize];
    let sums = accumulate_flock(
        0,
        &snap,
        &ids,
        params.trigger_value(params.separation_distance),
        params.trigger_value(params.alignment_distance),
        params.trigger_value(params.cohesion_distance),
    );
    assert_eq!(sums.separation_count, 0);
    assert_eq!(sums.alignment_count, 0);
    assert_eq!(sums.cohesion_count, 0);
    assert_eq!(sums.separation_sum, p(0, 0, 0));
    // and the flocking phase leaves the acceleration untouched
    let mut v = still_agent(p(0, 0, 0), &params);
    apply_flock(&mut v, 0, &snap, &ids, &params);
    assert_eq!(v.acceleration, p(0, 0, 0));
}

#[test]
fn separation_pushes_away_and_respects_the_cap() {
    // Two agents one unit apart, separation distance 4, factor 1.5, top
    // speed 80: the force on the agent at the origin points away from its
    // neighbour on the +x side and its magnitude stays within 80 * 1.5.
    let params = SteeringParameters::default();
    let snap = vec![
        AgentState { position: p(0, 0, 0), velocity: p(0, 0, 0) },
        AgentState { position: p(1_000, 0, 0), velocity: p(0, 0, 0) },
    ];
    let ids = vec![0usize, 1usize];
    let sums = accumulate_flock(
        0,
        &snap,
        &ids,
        params.trigger_value(params.separation_distance),
        params.trigger_value(params.alignment_distance),
        params.trigger_value(params.cohesion_distance),
    );
    assert_eq!(sums.separation_count, 1);
    let lim = params.limit_value(params.separation_factor);
    assert_eq!(lim, 120_000);
    let force = steer_force(
        &sums.separation_sum,
        sums.separation_count,
        &p(0, 0, 0),
        params.vehicle_max_speed,
        lim,
    );
    assert_eq!(force, p(-80_000, 0, 0));
    assert!(force.x < 0);
    assert!(force.x * force.x + force.y * force.y + force.z * force.z <= lim * lim);
}

#[test]
fn integration_clamps_every_axis() {
    let params = SteeringParameters::default();
    let mut v = still_agent(p(0, 0, 0), &params);
    v.velocity = p(50_000, 0, 10_000);
    v.acceleration = p(100_000, -200_000, 0);
    update_vehicle(&mut v, params.vehicle_max_speed, 16);
    assert_eq!(v.velocity, p(80_000, -80_000, 10_000));
    assert_eq!(v.acceleration, p(0, 0, 0));
    // position advanced by velocity * 16ms
    assert_eq!(v.position, p(1_280, -1_280, 160));
    assert!(v.velocity.x.abs() <= params.vehicle_max_speed);
    assert!(v.velocity.y.abs() <= params.vehicle_max_speed);
    assert!(v.velocity.z.abs() <= params.vehicle_max_speed);
}

#[test]
fn wall_avoidance_on_the_boundary_pushes_back_in() {
    let params = SteeringParameters::default();
    let half = params.world_half_extents;
    let lim = params.limit_value(params.wall_avoid_factor);
    let force = wall_avoid_force(
        &p(half.x, 0, 0),
        &p(0, 0, 0),
        &half,
        params.vehicle_max_speed,
        lim,
    );
    assert_eq!(force, p(-80_000, 0, 0));
    assert!(force.x < 0);
    assert!(force.x >= -lim);
}

#[test]
fn boundary_agent_skips_wander_and_feels_the_wall() {
    // An agent exactly on the +x world boundary, wander mode: its wander
    // angles stay untouched for the tick and the wall force alone acts,
    // with a negative x component.
    let params = SteeringParameters::default();
    let half = params.world_half_extents;
    let mut v = still_agent(p(half.x, 0, 0), &params);
    v.wander_theta = 4_321;
    v.wander_phi = 1_234;
    let snap = vec![AgentState { position: p(half.x, 0, 0), velocity: p(0, 0, 0) }];
    let ids = vec![0usize];
    steer_vehicle(&mut v, 0, &snap, &ids, &params, false, &p(0, 0, 0), 500, -500);
    assert_eq!(v.wander_theta, 4_321);
    assert_eq!(v.wander_phi, 1_234);
    // wall desire is -max_speed on x; divided by mass 60 that is -1333
    assert_eq!(v.acceleration, p(-1_333, 0, 0));
}

#[test]
fn in_bounds_wanderer_advances_its_angles_within_the_step() {
    let params = SteeringParameters::default();
    let mut v = still_agent(p(0, 0, 0), &params);
    v.velocity = p(params.vehicle_max_speed, 0, 0);
    let snap = vec![AgentState { position: p(0, 0, 0), velocity: p(params.vehicle_max_speed, 0, 0) }];
    let ids = vec![0usize];
    steer_vehicle(&mut v, 0, &snap, &ids, &params, false, &p(0, 0, 0), 700, -700);
    assert_eq!(v.wander_theta, 700);
    assert_eq!(v.wander_phi, 36_000 - 700);
}

#[test]
fn seek_mode_heads_for_the_target() {
    let params = SteeringParameters::default();
    let mut v = still_agent(p(0, 0, 0), &params);
    let snap = vec![AgentState { position: p(0, 0, 0), velocity: p(0, 0, 0) }];
    let ids = vec![0usize];
    steer_vehicle(&mut v, 0, &snap, &ids, &params, true, &p(500_000, 0, 0), 0, 0);
    // desire is +max_speed toward the target; seek cap is 80 * 7
    assert_eq!(v.acceleration, p(80_000 / 60, 0, 0));
    // and the wander state never moves in seek mode
    assert_eq!(v.wander_theta, 0);
    assert_eq!(v.wander_phi, 0);
}

#[test]
fn a_tick_keeps_every_velocity_axis_within_the_top_speed() {
    let mut params = SteeringParameters::default();
    params.use_octree = true;
    params.octree_size = 2;
    let mut agents = Vec::new();
    for i in 0..40i64 {
        let mut v = still_agent(p(i * 700, -i * 300, 200 * (i % 7)), &params);
        v.velocity = p(0, (i % 3) * 30_000, -20_000);
        agents.push(v);
    }
    for _ in 0..5 {
        advance(&mut agents, &params, false, &p(0, 0, 0), 16);
    }
    assert_eq!(agents.len(), 40);
    for a in &agents {
        assert!(a.velocity.x.abs() <= params.vehicle_max_speed);
        assert!(a.velocity.y.abs() <= params.vehicle_max_speed);
        assert!(a.velocity.z.abs() <= params.vehicle_max_speed);
        assert_eq!(a.acceleration, p(0, 0, 0));
    }
}

#[test]
fn brute_force_and_defaults_drive_a_flock() {
    let params = SteeringParameters::default();
    assert!(!params.use_octree);
    let mut agents = vec![
        still_agent(p(0, 0, 0), &params),
        still_agent(p(2_000, 0, 0), &params),
        still_agent(p(0, 2_000, 0), &params),
    ];
    advance(&mut agents, &params, true, &p(100_000, 100_000, 0), 16);
    // seeking agents picked up speed toward the target
    assert!(agents[0].velocity.x > 0 || agents[0].velocity.y > 0);
}

#[test]
fn random_spawns_differ_and_stay_legal() {
    let params = SteeringParameters::default();
    let mut positions = Vec::new();
    for _ in 0..50 {
        let v = spawn_random(&params);
        assert!(v.velocity.x.abs() <= params.vehicle_max_speed);
        assert!(v.velocity.y.abs() <= params.vehicle_max_speed);
        assert!(v.velocity.z.abs() <= params.vehicle_max_speed);
        assert_eq!(v.mass, params.vehicle_mass);
        positions.push((v.position.x, v.position.y, v.position.z));
    }
    positions.sort();
    positions.dedup();
    assert!(positions.len() > 1);
}

#[test]
fn default_configuration_is_the_stock_one() {
    let params = SteeringParameters::default();
    assert_eq!(params.vehicle_max_speed, 80_000);
    assert_eq!(params.vehicle_mass, 60);
    assert_eq!(params.separation_factor, 150);
    assert_eq!(params.separation_distance, 4);
    assert_eq!(params.octree_size, 100);
    assert_eq!(params.vehicle_count, 100);
}
