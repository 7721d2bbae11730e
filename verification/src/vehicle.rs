//! The flocking engine: autonomous agents steered by separation, alignment
//! and cohesion against their neighbours, plus either seeking a target or
//! wandering while avoiding the world walls, integrated once per tick.

use vstd::prelude::*;

use crate::geom::{
    abs, addt, clamp, clamp_box, clampt, dist2, dist_sq, divt, div_scalar, fits, limit, limit_t,
    norm2, norm2t, normalize_t, normalize_to, scale_div, scale_ratio, scalet, sqrt_down, subt,
    tdiv, v3, Point, COORD_LIMIT,
};
use crate::octree::{lemma_insert_preserves_partition, occurrences, slot_total, NodeV, Octree, TreeV};
use crate::params::{limit_of, trigger_d2, SteeringParameters, MILLI};
use crate::rng::sample_range;
use crate::trig::{cos_cd, sin_cd, sin_reduced, wrap_angle, wrap_spec, FULL_TURN, QUARTER_TURN, TRIG_SCALE};

verus! {

/// One autonomous agent: where it is, how it moves, the steering it has
/// accumulated this tick, its inertia, and the persistent pair of wander
/// angles that keeps its drift continuous across ticks.
pub struct Vehicle {
    pub position: Point,
    pub velocity: Point,
    pub acceleration: Point,
    pub mass: i64,
    pub wander_theta: i64,
    pub wander_phi: i64,
}

impl Vehicle {
    /// The between-tick invariant: position within the coordinate range,
    /// every velocity axis within the configured top speed, acceleration
    /// fully consumed by the last integration, wander angles reduced, and
    /// a mass that can serve as a divisor.
    pub open spec fn valid(self, params: SteeringParameters) -> bool {
        &&& fits(self.position, COORD_LIMIT as int)
        &&& fits(self.velocity, params.vehicle_max_speed as int)
        &&& self.acceleration.spec_is_zero()
        &&& 0 <= self.wander_theta < FULL_TURN
        &&& 0 <= self.wander_phi < FULL_TURN
        &&& 1 <= self.mass
    }

    /// Accumulate one steering force: heavier agents respond less, as the
    /// acceleration grows by `force / mass` on each axis.
    pub fn apply_force(&mut self, force: &Point)
        requires
            fits(old(self).acceleration, 6 * COORD_LIMIT as int),
            fits(*force, COORD_LIMIT as int),
            1 <= old(self).mass,
        ensures
            v3(final(self).acceleration) == addt(
                v3(old(self).acceleration),
                divt(v3(*force), old(self).mass as int),
            ),
            abs(final(self).acceleration.x as int) <= abs(old(self).acceleration.x as int) + abs(
                force.x as int,
            ),
            abs(final(self).acceleration.y as int) <= abs(old(self).acceleration.y as int) + abs(
                force.y as int,
            ),
            abs(final(self).acceleration.z as int) <= abs(old(self).acceleration.z as int) + abs(
                force.z as int,
            ),
            final(self).position == old(self).position,
            final(self).velocity == old(self).velocity,
            final(self).mass == old(self).mass,
            final(self).wander_theta == old(self).wander_theta,
            final(self).wander_phi == old(self).wander_phi,
    {
        let delta = div_scalar(force, self.mass);
        proof {
            let m = old(self).mass as int;
            assert(abs(delta.x as int) <= abs(force.x as int) && abs(delta.y as int) <= abs(
                force.y as int,
            ) && abs(delta.z as int) <= abs(force.z as int)) by (nonlinear_arith)
                requires
                    abs(delta.x as int) * m <= abs(force.x as int),
                    abs(delta.y as int) * m <= abs(force.y as int),
                    abs(delta.z as int) * m <= abs(force.z as int),
                    m >= 1,
                    abs(delta.x as int) >= 0,
                    abs(delta.y as int) >= 0,
                    abs(delta.z as int) >= 0;
        }
        self.acceleration = self.acceleration.add(delta);
    }
}

/// Integrate one agent over `dt_ms` milliseconds: the accumulated
/// acceleration joins the velocity, which is clamped to the top speed on
/// each axis; the position advances by `velocity * dt` and saturates at the
/// coordinate range, far outside any configured world; the acceleration is
/// reset for the next tick.
pub fn update_vehicle(v: &mut Vehicle, max_speed: i64, dt_ms: i64)
    requires
        1 <= max_speed <= COORD_LIMIT,
        0 <= dt_ms <= 1_000_000,
        fits(old(v).position, COORD_LIMIT as int),
        fits(old(v).velocity, COORD_LIMIT as int),
        fits(old(v).acceleration, 6 * COORD_LIMIT as int),
    ensures
        v3(final(v).velocity) == clampt(
            addt(v3(old(v).velocity), v3(old(v).acceleration)),
            max_speed as int,
        ),
        fits(final(v).velocity, max_speed as int),
        final(v).position.x == clamp(
            old(v).position.x + tdiv(final(v).velocity.x * dt_ms, MILLI as int),
            -COORD_LIMIT as int,
            COORD_LIMIT as int,
        ),
        final(v).position.y == clamp(
            old(v).position.y + tdiv(final(v).velocity.y * dt_ms, MILLI as int),
            -COORD_LIMIT as int,
            COORD_LIMIT as int,
        ),
        final(v).position.z == clamp(
            old(v).position.z + tdiv(final(v).velocity.z * dt_ms, MILLI as int),
            -COORD_LIMIT as int,
            COORD_LIMIT as int,
        ),
        fits(final(v).position, COORD_LIMIT as int),
        final(v).acceleration.spec_is_zero(),
        final(v).mass == old(v).mass,
        final(v).wander_theta == old(v).wander_theta,
        final(v).wander_phi == old(v).wander_phi,
{
    let summed = v.velocity.add(v.acceleration);
    let vel = clamp_box(&summed, max_speed);
    v.velocity = vel;
    let dx = scale_ratio(v.velocity.x, dt_ms, MILLI);
    let dy = scale_ratio(v.velocity.y, dt_ms, MILLI);
    let dz = scale_ratio(v.velocity.z, dt_ms, MILLI);
    proof {
        assert(abs(v.velocity.x as int) * dt_ms <= COORD_LIMIT * 1_000_000) by (nonlinear_arith)
            requires abs(v.velocity.x as int) <= COORD_LIMIT as int, 0 <= dt_ms <= 1_000_000;
        assert(abs(v.velocity.y as int) * dt_ms <= COORD_LIMIT * 1_000_000) by (nonlinear_arith)
            requires abs(v.velocity.y as int) <= COORD_LIMIT as int, 0 <= dt_ms <= 1_000_000;
        assert(abs(v.velocity.z as int) * dt_ms <= COORD_LIMIT * 1_000_000) by (nonlinear_arith)
            requires abs(v.velocity.z as int) <= COORD_LIMIT as int, 0 <= dt_ms <= 1_000_000;
    }
    let moved = Point { x: v.position.x + dx, y: v.position.y + dy, z: v.position.z + dz };
    v.position = clamp_box(&moved, COORD_LIMIT);
    v.acceleration = Point::zero();
}

/// A fresh agent: it sits at `position`, moves along `direction` at the
/// top speed (or rests if the direction is degenerate), and has not begun
/// to wander.
pub fn spawn_vehicle(position: Point, direction: Point, params: &SteeringParameters) -> (r: Vehicle)
    requires
        params.valid(),
        fits(position, COORD_LIMIT as int),
        fits(direction, 2 * COORD_LIMIT as int),
    ensures
        r.position == position,
        v3(r.velocity) == normalize_t(v3(direction), params.vehicle_max_speed as int),
        r.acceleration.spec_is_zero(),
        r.mass == params.vehicle_mass,
        r.wander_theta == 0,
        r.wander_phi == 0,
        direction.x >= 0 ==> r.velocity.x >= 0,
        direction.y >= 0 ==> r.velocity.y >= 0,
        direction.z >= 0 ==> r.velocity.z >= 0,
        r.valid(*params),
{
    Vehicle {
        position,
        velocity: normalize_to(&direction, params.vehicle_max_speed),
        acceleration: Point::zero(),
        mass: params.vehicle_mass,
        wander_theta: 0,
        wander_phi: 0,
    }
}

/// A fresh agent at a random position in the central half of the world,
/// headed at top speed in a random direction, as the spawner hands them
/// out.
pub fn spawn_random(params: &SteeringParameters) -> (r: Vehicle)
    requires
        params.valid(),
    ensures
        r.valid(*params),
        r.mass == params.vehicle_mass,
        abs(r.position.x as int) <= tdiv(params.world_half_extents.x as int, 2),
        abs(r.position.y as int) <= tdiv(params.world_half_extents.y as int, 2),
        abs(r.position.z as int) <= tdiv(params.world_half_extents.z as int, 2),
        r.velocity.x >= 0 && r.velocity.y >= 0 && r.velocity.z >= 0,
{
    let half = params.world_half_extents;
    let hx = scale_ratio(half.x, 1, 2);
    let hy = scale_ratio(half.y, 1, 2);
    let hz = scale_ratio(half.z, 1, 2);
    let px = crate::rng::sample_range(-hx, hx);
    let py = crate::rng::sample_range(-hy, hy);
    let pz = crate::rng::sample_range(-hz, hz);
    let vx = crate::rng::sample_range(0, params.vehicle_max_speed);
    let vy = crate::rng::sample_range(0, params.vehicle_max_speed);
    let vz = crate::rng::sample_range(0, params.vehicle_max_speed);
    spawn_vehicle(
        Point { x: px, y: py, z: pz },
        Point { x: vx, y: vy, z: vz },
        params,
    )
}

/// What the force phase reads of every agent: an immutable snapshot entry
/// captured before any acceleration is written.
#[derive(Clone, Copy)]
pub struct AgentState {
    pub position: Point,
    pub velocity: Point,
}

/// Every snapshot entry within the coordinate range.
pub open spec fn snap_ok(snap: Seq<AgentState>, max_speed: int) -> bool {
    forall|j: int|
        0 <= j < snap.len() ==> fits((#[trigger] snap[j]).position, COORD_LIMIT as int) && fits(
            snap[j].velocity,
            max_speed,
        )
}

/// Fixed-point scale of the inverse-square separation weighting.
pub const SEPARATION_SCALE: i64 = 0x10_0000;

/// At most this many agents take part in one tick.
pub const AGENT_LIMIT: i64 = 0x10_0000;

/// One neighbour's separation contribution: the offset away from the
/// neighbour weighted by the inverse square of the distance, in fixed
/// point; a coincident neighbour, which has no direction, contributes
/// nothing.
pub open spec fn sep_contrib(me: Point, other: Point) -> (int, int, int) {
    let d2 = dist2(other, me);
    if d2 > 0 {
        scalet(subt(v3(me), v3(other)), SEPARATION_SCALE as int, d2)
    } else {
        (0int, 0int, 0int)
    }
}

/// Separation accumulator over the listed neighbours: the sum of weighted
/// offsets from every distinct neighbour within the squared trigger
/// distance, and how many there were.
pub open spec fn sep_fold(snap: Seq<AgentState>, me: int, ids: Seq<usize>, d2lim: int) -> (
    (int, int, int),
    int,
)
    decreases ids.len(),
{
    if ids.len() == 0 {
        ((0int, 0int, 0int), 0int)
    } else {
        let acc = sep_fold(snap, me, ids.drop_last(), d2lim);
        let j = ids.last() as int;
        if j == me {
            acc
        } else {
            let d2 = dist2(snap[j].position, snap[me].position);
            if d2 < d2lim {
                (addt(acc.0, sep_contrib(snap[me].position, snap[j].position)), acc.1 + 1)
            } else {
                acc
            }
        }
    }
}

/// Alignment accumulator: the sum of the velocities of every distinct
/// neighbour within the squared trigger distance, and how many there were.
pub open spec fn ali_fold(snap: Seq<AgentState>, me: int, ids: Seq<usize>, d2lim: int) -> (
    (int, int, int),
    int,
)
    decreases ids.len(),
{
    if ids.len() == 0 {
        ((0int, 0int, 0int), 0int)
    } else {
        let acc = ali_fold(snap, me, ids.drop_last(), d2lim);
        let j = ids.last() as int;
        if j == me {
            acc
        } else {
            let d2 = dist2(snap[j].position, snap[me].position);
            if d2 < d2lim {
                (addt(acc.0, v3(snap[j].velocity)), acc.1 + 1)
            } else {
                acc
            }
        }
    }
}

/// Cohesion accumulator: the sum of the positions of every distinct
/// neighbour within the squared trigger distance, and how many there were.
pub open spec fn coh_fold(snap: Seq<AgentState>, me: int, ids: Seq<usize>, d2lim: int) -> (
    (int, int, int),
    int,
)
    decreases ids.len(),
{
    if ids.len() == 0 {
        ((0int, 0int, 0int), 0int)
    } else {
        let acc = coh_fold(snap, me, ids.drop_last(), d2lim);
        let j = ids.last() as int;
        if j == me {
            acc
        } else {
            let d2 = dist2(snap[j].position, snap[me].position);
            if d2 < d2lim {
                (addt(acc.0, v3(snap[j].position)), acc.1 + 1)
            } else {
                acc
            }
        }
    }
}

/// A weighted offset never exceeds the weighting scale on any axis, since
/// the squared distance dominates each component's square.
proof fn lemma_contrib_bound(diff: int, scale: int, d2: int)
    by (nonlinear_arith)
    requires
        d2 >= diff * diff,
        d2 >= 1,
        scale >= 0,
    ensures
        abs(tdiv(diff * scale, d2)) <= scale,
{
    let p = diff * scale;
    let u = if p >= 0 { p } else { -p };
    vstd::arithmetic::div_mod::lemma_div_pos_is_pos(u, d2);
    vstd::arithmetic::div_mod::lemma_remainder_lower(u, d2);
    let q = u / d2;
    if q > scale {
        assert(q * d2 >= (scale + 1) * d2);
        assert(u <= abs(diff) * scale);
        assert((scale + 1) * d2 >= (scale + 1) * (diff * diff));
        assert(false);
    }
}

/// The running sums of one pass over a neighbour list, ready to be turned
/// into the three flocking forces.
pub struct FlockSums {
    pub separation_sum: Point,
    pub separation_count: i64,
    pub alignment_sum: Point,
    pub alignment_count: i64,
    pub cohesion_sum: Point,
    pub cohesion_count: i64,
}

/// One pass over the neighbour list of agent `me`, accumulating the three
/// flocking sums exactly as the folds describe them.
#[verifier::rlimit(60)]
pub fn accumulate_flock(
    me: usize,
    snap: &Vec<AgentState>,
    ids: &Vec<usize>,
    d2_sep: i64,
    d2_ali: i64,
    d2_coh: i64,
) -> (r: FlockSums)
    requires
        me < snap@.len(),
        forall|j: int| 0 <= j < ids@.len() ==> (#[trigger] ids@[j]) < snap@.len(),
        snap_ok(snap@, COORD_LIMIT as int),
        ids@.len() <= AGENT_LIMIT,
    ensures
        (v3(r.separation_sum), r.separation_count as int) == sep_fold(
            snap@,
            me as int,
            ids@,
            d2_sep as int,
        ),
        (v3(r.alignment_sum), r.alignment_count as int) == ali_fold(
            snap@,
            me as int,
            ids@,
            d2_ali as int,
        ),
        (v3(r.cohesion_sum), r.cohesion_count as int) == coh_fold(
            snap@,
            me as int,
            ids@,
            d2_coh as int,
        ),
        0 <= r.separation_count <= ids@.len(),
        0 <= r.alignment_count <= ids@.len(),
        0 <= r.cohesion_count <= ids@.len(),
        fits(r.separation_sum, r.separation_count * SEPARATION_SCALE as int),
        fits(r.alignment_sum, r.alignment_count * COORD_LIMIT as int),
        fits(r.cohesion_sum, r.cohesion_count * COORD_LIMIT as int),
{
    let mut sums = FlockSums {
        separation_sum: Point::zero(),
        separation_count: 0,
        alignment_sum: Point::zero(),
        alignment_count: 0,
        cohesion_sum: Point::zero(),
        cohesion_count: 0,
    };
    let n = ids.len();
    let mut k: usize = 0;
    while k < n
        invariant
            k <= n,
            n == ids@.len(),
            me < snap@.len(),
            forall|j: int| 0 <= j < ids@.len() ==> (#[trigger] ids@[j]) < snap@.len(),
            snap_ok(snap@, COORD_LIMIT as int),
            ids@.len() <= AGENT_LIMIT,
            (v3(sums.separation_sum), sums.separation_count as int) == sep_fold(
                snap@,
                me as int,
                ids@.take(k as int),
                d2_sep as int,
            ),
            (v3(sums.alignment_sum), sums.alignment_count as int) == ali_fold(
                snap@,
                me as int,
                ids@.take(k as int),
                d2_ali as int,
            ),
            (v3(sums.cohesion_sum), sums.cohesion_count as int) == coh_fold(
                snap@,
                me as int,
                ids@.take(k as int),
                d2_coh as int,
            ),
            0 <= sums.separation_count <= k,
            0 <= sums.alignment_count <= k,
            0 <= sums.cohesion_count <= k,
            fits(sums.separation_sum, sums.separation_count * SEPARATION_SCALE as int),
            fits(sums.alignment_sum, sums.alignment_count * COORD_LIMIT as int),
            fits(sums.cohesion_sum, sums.cohesion_count * COORD_LIMIT as int),
        decreases n - k,
    {
        let j = ids[k];
        let k_next = k + 1;
        proof {
            assert(ids@.take(k_next as int).drop_last() =~= ids@.take(k as int));
            assert(ids@.take(k_next as int).last() == j);
        }
        if j != me {
            let d2 = dist_sq(&snap[j].position, &snap[me].position);
            if d2 < d2_sep {
                if d2 > 0 {
                    let diff = snap[me].position.sub(snap[j].position);
                    proof {
                        crate::geom::lemma_dist2_symmetric(
                            snap@[j as int].position,
                            snap@[me as int].position,
                        );
                        crate::geom::lemma_sq_nonneg(diff.x as int);
                        crate::geom::lemma_sq_nonneg(diff.y as int);
                        crate::geom::lemma_sq_nonneg(diff.z as int);
                        assert(d2 == dist2(snap@[me as int].position, snap@[j as int].position));
                        assert(d2 >= diff.x * diff.x && d2 >= diff.y * diff.y && d2 >= diff.z
                            * diff.z);
                    }
                    let weighted = scale_div(&diff, SEPARATION_SCALE, d2);
                    proof {
                        lemma_contrib_bound(diff.x as int, SEPARATION_SCALE as int, d2 as int);
                        lemma_contrib_bound(diff.y as int, SEPARATION_SCALE as int, d2 as int);
                        lemma_contrib_bound(diff.z as int, SEPARATION_SCALE as int, d2 as int);
                    }
                    sums.separation_sum = sums.separation_sum.add(weighted);
                }
                sums.separation_count = sums.separation_count + 1;
            }
            if d2 < d2_ali {
                sums.alignment_sum = sums.alignment_sum.add(snap[j].velocity);
                sums.alignment_count = sums.alignment_count + 1;
            }
            if d2 < d2_coh {
                sums.cohesion_sum = sums.cohesion_sum.add(snap[j].position);
                sums.cohesion_count = sums.cohesion_count + 1;
            }
        }
        k = k_next;
    }
    proof {
        assert(ids@.take(n as int) =~= ids@);
    }
    sums
}

/// A flocking sub-behaviour whose trigger distance reaches no neighbour
/// accumulates nothing: its fold is the empty sum with a count of zero,
/// so the behaviour contributes no force at all.
pub proof fn lemma_no_neighbors_no_contribution(
    snap: Seq<AgentState>,
    me: int,
    ids: Seq<usize>,
    d2lim: int,
)
    requires
        forall|k: int|
            0 <= k < ids.len() ==> (#[trigger] ids[k]) == me || dist2(
                snap[ids[k] as int].position,
                snap[me].position,
            ) >= d2lim,
    ensures
        sep_fold(snap, me, ids, d2lim) == (((0int, 0int, 0int), 0int)),
        ali_fold(snap, me, ids, d2lim) == (((0int, 0int, 0int), 0int)),
        coh_fold(snap, me, ids, d2lim) == (((0int, 0int, 0int), 0int)),
    decreases ids.len(),
{
    if ids.len() > 0 {
        let head = ids.drop_last();
        assert forall|k: int|
            0 <= k < head.len() implies (#[trigger] head[k]) == me || dist2(
            snap[head[k] as int].position,
            snap[me].position,
        ) >= d2lim by {
            assert(head[k] == ids[k]);
        }
        lemma_no_neighbors_no_contribution(snap, me, head, d2lim);
        assert(ids[ids.len() - 1] == ids.last());
    }
}

/// When no neighbour lies within any of the three trigger distances, the
/// whole flocking phase leaves the acceleration exactly as it was.
pub proof fn lemma_flock_no_neighbors(
    v: Vehicle,
    me: int,
    snap: Seq<AgentState>,
    ids: Seq<usize>,
    params: SteeringParameters,
)
    requires
        forall|k: int|
            0 <= k < ids.len() ==> (#[trigger] ids[k]) == me || (dist2(
                snap[ids[k] as int].position,
                snap[me].position,
            ) >= trigger_d2(params.vehicle_size as int, params.separation_distance as int) && dist2(
                snap[ids[k] as int].position,
                snap[me].position,
            ) >= trigger_d2(params.vehicle_size as int, params.alignment_distance as int) && dist2(
                snap[ids[k] as int].position,
                snap[me].position,
            ) >= trigger_d2(params.vehicle_size as int, params.cohesion_distance as int)),
    ensures
        flock_accel(v, me, snap, ids, params) == v3(v.acceleration),
{
    lemma_no_neighbors_no_contribution(
        snap,
        me,
        ids,
        trigger_d2(params.vehicle_size as int, params.separation_distance as int),
    );
    lemma_no_neighbors_no_contribution(
        snap,
        me,
        ids,
        trigger_d2(params.vehicle_size as int, params.alignment_distance as int),
    );
    lemma_no_neighbors_no_contribution(
        snap,
        me,
        ids,
        trigger_d2(params.vehicle_size as int, params.cohesion_distance as int),
    );
}

/// Separation and alignment share one finishing step: average the sum,
/// rescale to the top speed, steer relative to the current velocity, cap.
pub open spec fn steer_from_sum(
    sum: (int, int, int),
    count: int,
    vel: Point,
    max_speed: int,
    lim: int,
) -> (int, int, int) {
    limit_t(subt(normalize_t(divt(sum, count), max_speed), v3(vel)), lim)
}

/// Turn an accumulated separation or alignment sum into a capped steering
/// force.
pub fn steer_force(sum: &Point, count: i64, velocity: &Point, max_speed: i64, lim: i64) -> (r:
    Point)
    requires
        1 <= count <= AGENT_LIMIT,
        fits(*velocity, COORD_LIMIT as int),
        1 <= max_speed <= COORD_LIMIT,
        0 <= lim <= COORD_LIMIT,
        fits(*sum, count * 2 * COORD_LIMIT as int),
    ensures
        v3(r) == steer_from_sum(v3(*sum), count as int, *velocity, max_speed as int, lim as int),
        norm2(r) <= lim * lim,
        fits(r, lim as int),
{
    proof {
        assert(count * (2 * COORD_LIMIT) <= AGENT_LIMIT * (2 * COORD_LIMIT)) by (nonlinear_arith)
            requires 1 <= count <= AGENT_LIMIT;
    }
    let avg = div_scalar(sum, count);
    proof {
        let c = count as int;
        assert(abs(avg.x as int) <= 2 * COORD_LIMIT && abs(avg.y as int) <= 2 * COORD_LIMIT && abs(
            avg.z as int,
        ) <= 2 * COORD_LIMIT) by (nonlinear_arith)
            requires
                abs(avg.x as int) * c <= abs(sum.x as int),
                abs(avg.y as int) * c <= abs(sum.y as int),
                abs(avg.z as int) * c <= abs(sum.z as int),
                abs(sum.x as int) <= c * 2 * COORD_LIMIT,
                abs(sum.y as int) <= c * 2 * COORD_LIMIT,
                abs(sum.z as int) <= c * 2 * COORD_LIMIT,
                c >= 1,
                abs(avg.x as int) >= 0,
                abs(avg.y as int) >= 0,
                abs(avg.z as int) >= 0;
    }
    let desired = normalize_to(&avg, max_speed);
    let mut force = desired.sub(*velocity);
    limit(&mut force, lim);
    force
}

/// The cohesion finish: head for the neighbours' centroid, normalized to
/// unit length in fixed point, softened inside the dead zone near the
/// centroid, rescaled to the top speed, steered, capped.
pub open spec fn cohesion_steer(
    sum: (int, int, int),
    count: int,
    pos: Point,
    vel: Point,
    max_speed: int,
    lim: int,
) -> (int, int, int) {
    let dir = subt(divt(sum, count), v3(pos));
    let unit = normalize_t(dir, MILLI as int);
    let dist = sqrt_down(norm2t(unit));
    let damped = if dist < 10 * MILLI {
        scalet(unit, dist, 10 * MILLI as int)
    } else {
        unit
    };
    limit_t(subt(scalet(damped, max_speed, MILLI as int), v3(vel)), lim)
}

/// Turn an accumulated cohesion sum into a capped steering force.
pub fn cohesion_force(
    sum: &Point,
    count: i64,
    position: &Point,
    velocity: &Point,
    max_speed: i64,
    lim: i64,
) -> (r: Point)
    requires
        1 <= count <= AGENT_LIMIT,
        fits(*position, COORD_LIMIT as int),
        fits(*velocity, COORD_LIMIT as int),
        1 <= max_speed <= COORD_LIMIT,
        0 <= lim <= COORD_LIMIT,
        fits(*sum, count * COORD_LIMIT as int),
    ensures
        v3(r) == cohesion_steer(
            v3(*sum),
            count as int,
            *position,
            *velocity,
            max_speed as int,
            lim as int,
        ),
        norm2(r) <= lim * lim,
        fits(r, lim as int),
{
    proof {
        assert(count * (COORD_LIMIT as int) <= AGENT_LIMIT * (COORD_LIMIT as int))
            by (nonlinear_arith)
            requires 1 <= count <= AGENT_LIMIT;
    }
    let centroid = div_scalar(sum, count);
    proof {
        let c = count as int;
        assert(abs(centroid.x as int) <= COORD_LIMIT && abs(centroid.y as int) <= COORD_LIMIT
            && abs(centroid.z as int) <= COORD_LIMIT) by (nonlinear_arith)
            requires
                abs(centroid.x as int) * c <= abs(sum.x as int),
                abs(centroid.y as int) * c <= abs(sum.y as int),
                abs(centroid.z as int) * c <= abs(sum.z as int),
                abs(sum.x as int) <= c * COORD_LIMIT,
                abs(sum.y as int) <= c * COORD_LIMIT,
                abs(sum.z as int) <= c * COORD_LIMIT,
                c >= 1,
                abs(centroid.x as int) >= 0,
                abs(centroid.y as int) >= 0,
                abs(centroid.z as int) >= 0;
    }
    let dir = centroid.sub(*position);
    let unit = normalize_to(&dir, MILLI);
    let s = crate::geom::norm_sq(&unit);
    let dist = crate::geom::isqrt_down(s);
    proof {
        crate::geom::lemma_sq_nonneg(dist as int);
        crate::geom::lemma_sq_le(dist as int, MILLI as int);
    }
    let damped = if dist < 10 * MILLI {
        scale_div(&unit, dist, 10 * MILLI)
    } else {
        unit
    };
    proof {
        assert(norm2t(v3(unit)) == norm2(unit));
        if dist < 10 * MILLI {
            assert(abs(damped.x as int) <= MILLI && abs(damped.y as int) <= MILLI && abs(
                damped.z as int,
            ) <= MILLI) by (nonlinear_arith)
                requires
                    abs(damped.x as int) * (10 * MILLI) <= abs(unit.x as int) * dist,
                    abs(damped.y as int) * (10 * MILLI) <= abs(unit.y as int) * dist,
                    abs(damped.z as int) * (10 * MILLI) <= abs(unit.z as int) * dist,
                    abs(unit.x as int) <= MILLI,
                    abs(unit.y as int) <= MILLI,
                    abs(unit.z as int) <= MILLI,
                    0 <= dist <= MILLI,
                    abs(damped.x as int) >= 0,
                    abs(damped.y as int) >= 0,
                    abs(damped.z as int) >= 0;
        }
        assert(abs(damped.x as int) <= MILLI && abs(damped.y as int) <= MILLI && abs(
            damped.z as int,
        ) <= MILLI);
    }
    let desired = scale_div(&damped, max_speed, MILLI);
    proof {
        assert(abs(desired.x as int) <= COORD_LIMIT && abs(desired.y as int) <= COORD_LIMIT && abs(
            desired.z as int,
        ) <= COORD_LIMIT) by (nonlinear_arith)
            requires
                abs(desired.x as int) * MILLI <= abs(damped.x as int) * max_speed,
                abs(desired.y as int) * MILLI <= abs(damped.y as int) * max_speed,
                abs(desired.z as int) * MILLI <= abs(damped.z as int) * max_speed,
                abs(damped.x as int) <= MILLI,
                abs(damped.y as int) <= MILLI,
                abs(damped.z as int) <= MILLI,
                1 <= max_speed <= COORD_LIMIT,
                abs(desired.x as int) >= 0,
                abs(desired.y as int) >= 0,
                abs(desired.z as int) >= 0;
    }
    let mut force = desired.sub(*velocity);
    limit(&mut force, lim);
    force
}

/// The wall-avoidance desire: on each axis that has reached or passed the
/// world half extent, full speed back toward the interior; nothing on
/// in-bounds axes.
pub open spec fn wall_desired(pos: Point, half: Point, max_speed: int) -> (int, int, int) {
    (
        if pos.x <= -half.x {
            max_speed
        } else if pos.x >= half.x {
            -max_speed
        } else {
            0
        },
        if pos.y <= -half.y {
            max_speed
        } else if pos.y >= half.y {
            -max_speed
        } else {
            0
        },
        if pos.z <= -half.z {
            max_speed
        } else if pos.z >= half.z {
            -max_speed
        } else {
            0
        },
    )
}

/// The capped wall-avoidance force.
pub open spec fn wall_steer(pos: Point, vel: Point, half: Point, max_speed: int, lim: int) -> (
    int,
    int,
    int,
) {
    limit_t(subt(wall_desired(pos, half, max_speed), v3(vel)), lim)
}

/// An agent on or beyond the world boundary on some axis.
pub open spec fn out_of_bounds(pos: Point, half: Point) -> bool {
    ||| pos.x <= -half.x
    ||| pos.x >= half.x
    ||| pos.y <= -half.y
    ||| pos.y >= half.y
    ||| pos.z <= -half.z
    ||| pos.z >= half.z
}

/// The wall-avoidance force: every agent in wander mode receives it; on
/// in-bounds axes it only damps the current velocity.
pub fn wall_avoid_force(
    position: &Point,
    velocity: &Point,
    half: &Point,
    max_speed: i64,
    lim: i64,
) -> (r: Point)
    requires
        fits(*position, COORD_LIMIT as int),
        fits(*velocity, max_speed as int),
        fits(*half, COORD_LIMIT as int),
        1 <= max_speed <= COORD_LIMIT,
        0 <= lim <= COORD_LIMIT,
    ensures
        v3(r) == wall_steer(*position, *velocity, *half, max_speed as int, lim as int),
        norm2(r) <= lim * lim,
        fits(r, lim as int),
        position.x >= half.x && half.x > 0 ==> r.x <= 0,
        position.x <= -half.x && half.x > 0 ==> r.x >= 0,
{
    let desired = Point {
        x: if position.x <= -half.x {
            max_speed
        } else if position.x >= half.x {
            -max_speed
        } else {
            0
        },
        y: if position.y <= -half.y {
            max_speed
        } else if position.y >= half.y {
            -max_speed
        } else {
            0
        },
        z: if position.z <= -half.z {
            max_speed
        } else if position.z >= half.z {
            -max_speed
        } else {
            0
        },
    };
    let mut force = desired.sub(*velocity);
    limit(&mut force, lim);
    force
}

/// The capped seek force toward an explicit target.
pub open spec fn seek_steer(pos: Point, vel: Point, target: Point, max_speed: int, lim: int) -> (
    int,
    int,
    int,
) {
    limit_t(subt(normalize_t(subt(v3(target), v3(pos)), max_speed), v3(vel)), lim)
}

/// Steer toward the target marker: desire full speed straight at it, steer
/// relative to the current velocity, cap.
pub fn seek_force(
    position: &Point,
    velocity: &Point,
    target: &Point,
    max_speed: i64,
    lim: i64,
) -> (r: Point)
    requires
        fits(*position, COORD_LIMIT as int),
        fits(*velocity, COORD_LIMIT as int),
        fits(*target, COORD_LIMIT as int),
        1 <= max_speed <= COORD_LIMIT,
        0 <= lim <= COORD_LIMIT,
    ensures
        v3(r) == seek_steer(*position, *velocity, *target, max_speed as int, lim as int),
        norm2(r) <= lim * lim,
        fits(r, lim as int),
{
    let dir = target.sub(*position);
    let desired = normalize_to(&dir, max_speed);
    let mut force = desired.sub(*velocity);
    limit(&mut force, lim);
    force
}

/// The point on the wander sphere picked by the two angles, relative to
/// the sphere's center, in milli-units.
pub open spec fn wander_offset(theta: int, phi: int, radius: int) -> (int, int, int) {
    let ct = sin_reduced(wrap_spec(theta + QUARTER_TURN));
    let st = sin_reduced(theta);
    let sp = sin_reduced(phi);
    let cp = sin_reduced(wrap_spec(phi + QUARTER_TURN));
    (
        tdiv((ct * sp) * radius, (TRIG_SCALE * TRIG_SCALE) as int),
        tdiv((st * sp) * radius, (TRIG_SCALE * TRIG_SCALE) as int),
        tdiv(cp * radius, TRIG_SCALE as int),
    )
}

/// The capped wander force for an agent whose angles have already been
/// advanced: head for the drifting point on the sphere ahead.
pub open spec fn wander_steer(
    vel: Point,
    theta: int,
    phi: int,
    wander_distance: int,
    wander_radius: int,
    wander_speed: int,
    lim: int,
) -> (int, int, int) {
    let dir = addt(normalize_t(v3(vel), wander_distance), wander_offset(theta, phi, wander_radius));
    limit_t(subt(normalize_t(dir, wander_speed), v3(vel)), lim)
}

/// Steer toward a drifting point on a sphere ahead of the agent.  The
/// angles must already be reduced; the force is capped at `lim`.
pub fn wander_force(
    velocity: &Point,
    theta: i64,
    phi: i64,
    wander_distance: i64,
    wander_radius: i64,
    wander_speed: i64,
    lim: i64,
) -> (r: Point)
    requires
        fits(*velocity, COORD_LIMIT as int),
        0 <= theta < FULL_TURN,
        0 <= phi < FULL_TURN,
        0 <= wander_distance <= COORD_LIMIT,
        0 <= wander_radius <= COORD_LIMIT,
        0 <= wander_speed <= COORD_LIMIT,
        0 <= lim <= COORD_LIMIT,
    ensures
        v3(r) == wander_steer(
            *velocity,
            theta as int,
            phi as int,
            wander_distance as int,
            wander_radius as int,
            wander_speed as int,
            lim as int,
        ),
        norm2(r) <= lim * lim,
        fits(r, lim as int),
{
    let ct = cos_cd(theta);
    let st = sin_cd(theta);
    let sp = sin_cd(phi);
    let cp = cos_cd(phi);
    proof {
        assert(abs(ct * sp) <= TRIG_SCALE * TRIG_SCALE && abs(st * sp) <= TRIG_SCALE * TRIG_SCALE)
            by (nonlinear_arith)
            requires
                -TRIG_SCALE <= ct <= TRIG_SCALE,
                -TRIG_SCALE <= st <= TRIG_SCALE,
                -TRIG_SCALE <= sp <= TRIG_SCALE;
    }
    let ox = scale_ratio(ct * sp, wander_radius, TRIG_SCALE * TRIG_SCALE);
    let oy = scale_ratio(st * sp, wander_radius, TRIG_SCALE * TRIG_SCALE);
    let oz = scale_ratio(cp, wander_radius, TRIG_SCALE);
    proof {
        assert(abs(ox as int) <= COORD_LIMIT && abs(oy as int) <= COORD_LIMIT && abs(oz as int)
            <= COORD_LIMIT) by (nonlinear_arith)
            requires
                abs(ox as int) * (TRIG_SCALE * TRIG_SCALE) <= abs((ct * sp) as int) * wander_radius,
                abs(oy as int) * (TRIG_SCALE * TRIG_SCALE) <= abs((st * sp) as int) * wander_radius,
                abs(oz as int) * TRIG_SCALE <= abs(cp as int) * wander_radius,
                abs((ct * sp) as int) <= TRIG_SCALE * TRIG_SCALE,
                abs((st * sp) as int) <= TRIG_SCALE * TRIG_SCALE,
                abs(cp as int) <= TRIG_SCALE,
                0 <= wander_radius <= COORD_LIMIT,
                abs(ox as int) >= 0,
                abs(oy as int) >= 0,
                abs(oz as int) >= 0;
    }
    let ahead = normalize_to(velocity, wander_distance);
    let dir = ahead.add(Point { x: ox, y: oy, z: oz });
    let desired = normalize_to(&dir, wander_speed);
    let mut force = desired.sub(*velocity);
    limit(&mut force, lim);
    force
}

/// An acceleration after one more force: `acc + force / mass`.
pub open spec fn accel_plus(acc: (int, int, int), force: (int, int, int), mass: int) -> (
    int,
    int,
    int,
) {
    addt(acc, divt(force, mass))
}

/// The acceleration of agent `me` after the three flocking forces: each
/// sub-behaviour contributes exactly when it saw at least one neighbour in
/// range, and contributes nothing otherwise.
pub open spec fn flock_accel(
    v: Vehicle,
    me: int,
    snap: Seq<AgentState>,
    ids: Seq<usize>,
    params: SteeringParameters,
) -> (int, int, int) {
    let max = params.vehicle_max_speed as int;
    let m = v.mass as int;
    let s = sep_fold(
        snap,
        me,
        ids,
        trigger_d2(params.vehicle_size as int, params.separation_distance as int),
    );
    let a = ali_fold(
        snap,
        me,
        ids,
        trigger_d2(params.vehicle_size as int, params.alignment_distance as int),
    );
    let c = coh_fold(
        snap,
        me,
        ids,
        trigger_d2(params.vehicle_size as int, params.cohesion_distance as int),
    );
    let acc0 = v3(v.acceleration);
    let acc1 = if s.1 > 0 {
        accel_plus(
            acc0,
            steer_from_sum(s.0, s.1, v.velocity, max, limit_of(max, params.separation_factor as int)),
            m,
        )
    } else {
        acc0
    };
    let acc2 = if a.1 > 0 {
        accel_plus(
            acc1,
            steer_from_sum(a.0, a.1, v.velocity, max, limit_of(max, params.alignment_factor as int)),
            m,
        )
    } else {
        acc1
    };
    if c.1 > 0 {
        accel_plus(
            acc2,
            cohesion_steer(
                c.0,
                c.1,
                v.position,
                v.velocity,
                max,
                limit_of(max, params.cohesion_factor as int),
            ),
            m,
        )
    } else {
        acc2
    }
}

/// Accumulate the three flocking forces of agent `me` into its
/// acceleration: one capped force per sub-behaviour that saw a neighbour
/// within its trigger distance.
pub fn apply_flock(
    v: &mut Vehicle,
    me: usize,
    snap: &Vec<AgentState>,
    ids: &Vec<usize>,
    params: &SteeringParameters,
)
    requires
        params.valid(),
        fits(old(v).acceleration, 3 * COORD_LIMIT as int),
        fits(old(v).position, COORD_LIMIT as int),
        fits(old(v).velocity, COORD_LIMIT as int),
        1 <= old(v).mass,
        me < snap@.len(),
        forall|j: int| 0 <= j < ids@.len() ==> (#[trigger] ids@[j]) < snap@.len(),
        snap_ok(snap@, COORD_LIMIT as int),
        ids@.len() <= AGENT_LIMIT,
    ensures
        v3(final(v).acceleration) == flock_accel(*old(v), me as int, snap@, ids@, *params),
        abs(final(v).acceleration.x as int) <= abs(old(v).acceleration.x as int) + 3 * COORD_LIMIT,
        abs(final(v).acceleration.y as int) <= abs(old(v).acceleration.y as int) + 3 * COORD_LIMIT,
        abs(final(v).acceleration.z as int) <= abs(old(v).acceleration.z as int) + 3 * COORD_LIMIT,
        final(v).position == old(v).position,
        final(v).velocity == old(v).velocity,
        final(v).mass == old(v).mass,
        final(v).wander_theta == old(v).wander_theta,
        final(v).wander_phi == old(v).wander_phi,
{
    let d2_sep = params.trigger_value(params.separation_distance);
    let d2_ali = params.trigger_value(params.alignment_distance);
    let d2_coh = params.trigger_value(params.cohesion_distance);
    let sums = accumulate_flock(me, snap, ids, d2_sep, d2_ali, d2_coh);
    if sums.separation_count > 0 {
        proof {
            let c = sums.separation_count as int;
            assert(c * SEPARATION_SCALE <= c * (2 * COORD_LIMIT)) by (nonlinear_arith)
                requires c >= 1;
        }
        let lim = params.limit_value(params.separation_factor);
        let f = steer_force(
            &sums.separation_sum,
            sums.separation_count,
            &v.velocity,
            params.vehicle_max_speed,
            lim,
        );
        v.apply_force(&f);
    }
    if sums.alignment_count > 0 {
        proof {
            let c = sums.alignment_count as int;
            assert(c * (COORD_LIMIT as int) <= c * (2 * COORD_LIMIT)) by (nonlinear_arith)
                requires c >= 1;
        }
        let lim = params.limit_value(params.alignment_factor);
        let f = steer_force(
            &sums.alignment_sum,
            sums.alignment_count,
            &v.velocity,
            params.vehicle_max_speed,
            lim,
        );
        v.apply_force(&f);
    }
    if sums.cohesion_count > 0 {
        let lim = params.limit_value(params.cohesion_factor);
        let f = cohesion_force(
            &sums.cohesion_sum,
            sums.cohesion_count,
            &v.position,
            &v.velocity,
            params.vehicle_max_speed,
            lim,
        );
        v.apply_force(&f);
    }
}

/// The acceleration of one agent after its full per-tick steering:
/// flocking, then either the seek force or — in wander mode — the wander
/// force for in-bounds agents and the wall-avoidance force for everyone.
pub open spec fn steer_accel(
    v: Vehicle,
    me: int,
    snap: Seq<AgentState>,
    ids: Seq<usize>,
    params: SteeringParameters,
    target_active: bool,
    target: Point,
    dtheta: int,
    dphi: int,
) -> (int, int, int) {
    let base = flock_accel(v, me, snap, ids, params);
    let max = params.vehicle_max_speed as int;
    let m = v.mass as int;
    if target_active {
        accel_plus(
            base,
            seek_steer(v.position, v.velocity, target, max, limit_of(max, params.seek_factor as int)),
            m,
        )
    } else {
        let with_wander = if !out_of_bounds(v.position, params.world_half_extents) {
            accel_plus(
                base,
                wander_steer(
                    v.velocity,
                    wrap_spec(v.wander_theta + dtheta),
                    wrap_spec(v.wander_phi + dphi),
                    params.wander_distance as int,
                    params.wander_radius as int,
                    params.vehicle_wander_speed as int,
                    limit_of(max, params.wander_factor as int),
                ),
                m,
            )
        } else {
            base
        };
        accel_plus(
            with_wander,
            wall_steer(
                v.position,
                v.velocity,
                params.world_half_extents,
                max,
                limit_of(max, params.wall_avoid_factor as int),
            ),
            m,
        )
    }
}

/// The wander angle of an agent after one tick: advanced by the sampled
/// perturbation in wander mode while in bounds, untouched otherwise.
pub open spec fn steer_angle(
    angle: int,
    pos: Point,
    params: SteeringParameters,
    target_active: bool,
    delta: int,
) -> int {
    if !target_active && !out_of_bounds(pos, params.world_half_extents) {
        wrap_spec(angle + delta)
    } else {
        angle
    }
}

/// The force-accumulation phase of one agent: flocking plus the selected
/// mode's forces, with the wander angles advanced exactly when the wander
/// contribution acts.
pub fn steer_vehicle(
    v: &mut Vehicle,
    me: usize,
    snap: &Vec<AgentState>,
    ids: &Vec<usize>,
    params: &SteeringParameters,
    target_active: bool,
    target: &Point,
    dtheta: i64,
    dphi: i64,
)
    requires
        params.valid(),
        old(v).valid(*params),
        me < snap@.len(),
        forall|j: int| 0 <= j < ids@.len() ==> (#[trigger] ids@[j]) < snap@.len(),
        snap_ok(snap@, COORD_LIMIT as int),
        ids@.len() <= AGENT_LIMIT,
        fits(*target, COORD_LIMIT as int),
        -params.wander_step <= dtheta <= params.wander_step,
        -params.wander_step <= dphi <= params.wander_step,
    ensures
        v3(final(v).acceleration) == steer_accel(
            *old(v),
            me as int,
            snap@,
            ids@,
            *params,
            target_active,
            *target,
            dtheta as int,
            dphi as int,
        ),
        final(v).wander_theta == steer_angle(
            old(v).wander_theta as int,
            old(v).position,
            *params,
            target_active,
            dtheta as int,
        ),
        final(v).wander_phi == steer_angle(
            old(v).wander_phi as int,
            old(v).position,
            *params,
            target_active,
            dphi as int,
        ),
        fits(final(v).acceleration, 5 * COORD_LIMIT as int),
        0 <= final(v).wander_theta < FULL_TURN,
        0 <= final(v).wander_phi < FULL_TURN,
        final(v).position == old(v).position,
        final(v).velocity == old(v).velocity,
        final(v).mass == old(v).mass,
{
    apply_flock(v, me, snap, ids, params);
    if target_active {
        let lim = params.limit_value(params.seek_factor);
        let f = seek_force(&v.position, &v.velocity, target, params.vehicle_max_speed, lim);
        v.apply_force(&f);
    } else {
        let half = params.world_half_extents;
        let outside = v.position.x <= -half.x || v.position.x >= half.x || v.position.y <= -half.y
            || v.position.y >= half.y || v.position.z <= -half.z || v.position.z >= half.z;
        if !outside {
            let nt = wrap_angle(v.wander_theta + dtheta);
            let np = wrap_angle(v.wander_phi + dphi);
            v.wander_theta = nt;
            v.wander_phi = np;
            let lim = params.limit_value(params.wander_factor);
            let f = wander_force(
                &v.velocity,
                nt,
                np,
                params.wander_distance,
                params.wander_radius,
                params.vehicle_wander_speed,
                lim,
            );
            v.apply_force(&f);
        }
        let lim = params.limit_value(params.wall_avoid_factor);
        let f = wall_avoid_force(&v.position, &v.velocity, &half, params.vehicle_max_speed, lim);
        v.apply_force(&f);
    }
}

/// The point-wise negation of a bounded point.
pub open spec fn neg_point(p: Point) -> Point {
    Point { x: (-p.x) as i64, y: (-p.y) as i64, z: (-p.z) as i64 }
}

/// A spatial index holding nothing but its root region.
pub open spec fn initial_tree(cap: usize, center: Point, mn: Point, mx: Point) -> TreeV<usize> {
    TreeV {
        max_points: cap,
        root: Some(0usize),
        nodes: seq![
            NodeV { center, min: mn, max: mx, points: Seq::empty(), children: Seq::empty() },
        ],
        points: Seq::empty(),
    }
}

/// The spatial index after bulk-inserting the first `upto` snapshot
/// entries, each carrying its own index as payload.
pub open spec fn built_tree(
    snap: Seq<AgentState>,
    cap: usize,
    center: Point,
    mn: Point,
    mx: Point,
    upto: int,
) -> TreeV<usize>
    decreases upto,
{
    if upto <= 0 {
        initial_tree(cap, center, mn, mx)
    } else {
        built_tree(snap, cap, center, mn, mx, upto - 1).insert_spec(
            snap[upto - 1].position,
            (upto - 1) as usize,
        )
    }
}

/// Rebuilding the index from the same unchanged snapshot yields the same
/// tree, subdivision for subdivision and slot for slot: construction is a
/// mathematical function of the snapshot and the configuration alone.
pub proof fn lemma_rebuild_idempotent(
    a: TreeV<usize>,
    b: TreeV<usize>,
    snap: Seq<AgentState>,
    cap: usize,
    center: Point,
    mn: Point,
    mx: Point,
)
    requires
        a == built_tree(snap, cap, center, mn, mx, snap.len() as int),
        b == built_tree(snap, cap, center, mn, mx, snap.len() as int),
    ensures
        a == b,
{
}

/// Build a fresh spatial index over the whole snapshot: one root spanning
/// the world cuboid, then one insertion per agent in snapshot order, each
/// carrying its agent index as payload.
pub fn build_index(snap: &Vec<AgentState>, params: &SteeringParameters) -> (t: Octree<usize>)
    requires
        params.valid(),
        snap_ok(snap@, COORD_LIMIT as int),
    ensures
        t.wf(),
        t@.partitioned(),
        t@.root is Some,
        t@ == built_tree(
            snap@,
            params.octree_size,
            Point { x: 0, y: 0, z: 0 },
            neg_point(params.world_half_extents),
            params.world_half_extents,
            snap@.len() as int,
        ),
        t@.points.len() == snap@.len(),
        forall|s: int|
            0 <= s < t@.points.len() ==> (#[trigger] t@.points[s]).data == s && t@.points[s].point
                == snap@[s].position,
{
    let center = Point::zero();
    let half = params.world_half_extents;
    let mn = Point { x: -half.x, y: -half.y, z: -half.z };
    proof {
        assert(mn == neg_point(half));
    }
    let mut tree: Octree<usize> = Octree::new(params.octree_size);
    tree.create_root(center, mn, half);
    proof {
        assert(tree@.nodes =~= initial_tree(params.octree_size, center, mn, half).nodes);
        assert(tree@ =~= initial_tree(params.octree_size, center, mn, half));
        assert forall|x: usize| #![trigger slot_total(tree@.nodes, x)] slot_total(tree@.nodes, x)
            == 0 by {
            assert(tree@.nodes.drop_last() =~= Seq::<NodeV>::empty());
            assert(slot_total(tree@.nodes.drop_last(), x) == 0);
            assert(tree@.nodes.last().points.len() == 0);
            assert(occurrences(tree@.nodes.last().points, x) == 0);
        }
        assert(tree@.partitioned());
    }
    let n = snap.len();
    let mut i: usize = 0;
    while i < n
        invariant
            i <= n,
            n == snap@.len(),
            snap_ok(snap@, COORD_LIMIT as int),
            params.valid(),
            center == (Point { x: 0, y: 0, z: 0 }),
            mn == neg_point(params.world_half_extents),
            half == params.world_half_extents,
            tree.wf(),
            tree@.partitioned(),
            tree@.root is Some,
            tree@ == built_tree(snap@, params.octree_size, center, mn, half, i as int),
            tree@.points.len() == i,
            forall|s: int|
                0 <= s < i ==> (#[trigger] tree@.points[s]).data == s && tree@.points[s].point
                    == snap@[s].position,
        decreases n - i,
    {
        let ghost pre = tree@;
        tree.insert(snap[i].position, i);
        proof {
            assert(tree@ == pre.insert_spec(snap@[i as int].position, i));
            lemma_insert_preserves_partition(pre, snap@[i as int].position, i);
            assert(tree@.points == pre.points.push(
                crate::octree::PointWrapper { point: snap@[i as int].position, data: i },
            ));
        }
        i = i + 1;
    }
    tree
}

/// The immutable per-tick snapshot: every agent's position and velocity,
/// captured before any acceleration is written.
pub open spec fn snapshot_of(agents: Seq<Vehicle>) -> Seq<AgentState> {
    Seq::new(
        agents.len(),
        |i: int| AgentState { position: agents[i].position, velocity: agents[i].velocity },
    )
}

/// The neighbour list the force phase hands agent `i`: the same-bucket
/// candidates of the fresh spatial index when index mode is on, the whole
/// snapshot otherwise.  Either way the agent itself is filtered out later
/// by identity, and candidates are filtered by exact distance.
pub open spec fn neighbor_ids(snap: Seq<AgentState>, params: SteeringParameters, i: int) -> Seq<
    usize,
> {
    if params.use_octree {
        let t = built_tree(
            snap,
            params.octree_size,
            Point { x: 0, y: 0, z: 0 },
            neg_point(params.world_half_extents),
            params.world_half_extents,
            snap.len() as int,
        );
        let leaf = t.descend(t.root.unwrap() as int, snap[i].position);
        Seq::new(t.nodes[leaf].points.len(), |k: int| t.points[t.nodes[leaf].points[k] as int].data)
    } else {
        Seq::new(snap.len(), |k: int| k as usize)
    }
}

/// How one whole tick transforms one agent, given its neighbour list and
/// the two wander perturbations that were sampled for it: forces first,
/// then clamped integration.
pub open spec fn tick_rel(
    pre: Vehicle,
    post: Vehicle,
    me: int,
    snap: Seq<AgentState>,
    ids: Seq<usize>,
    params: SteeringParameters,
    target_active: bool,
    target: Point,
    dtheta: int,
    dphi: int,
    dt_ms: int,
) -> bool {
    let acc = steer_accel(pre, me, snap, ids, params, target_active, target, dtheta, dphi);
    let vel = clampt(addt(v3(pre.velocity), acc), params.vehicle_max_speed as int);
    &&& v3(post.velocity) == vel
    &&& post.position.x == clamp(
        pre.position.x + tdiv(vel.0 * dt_ms, MILLI as int),
        -COORD_LIMIT as int,
        COORD_LIMIT as int,
    )
    &&& post.position.y == clamp(
        pre.position.y + tdiv(vel.1 * dt_ms, MILLI as int),
        -COORD_LIMIT as int,
        COORD_LIMIT as int,
    )
    &&& post.position.z == clamp(
        pre.position.z + tdiv(vel.2 * dt_ms, MILLI as int),
        -COORD_LIMIT as int,
        COORD_LIMIT as int,
    )
    &&& post.acceleration.spec_is_zero()
    &&& post.mass == pre.mass
    &&& post.wander_theta == steer_angle(
        pre.wander_theta as int,
        pre.position,
        params,
        target_active,
        dtheta,
    )
    &&& post.wander_phi == steer_angle(
        pre.wander_phi as int,
        pre.position,
        params,
        target_active,
        dphi,
    )
}

/// The state of one agent after the force phase but before integration.
spec fn steered_rel(
    pre: Vehicle,
    cur: Vehicle,
    me: int,
    snap: Seq<AgentState>,
    ids: Seq<usize>,
    params: SteeringParameters,
    target_active: bool,
    target: Point,
    dtheta: int,
    dphi: int,
) -> bool {
    &&& cur.position == pre.position
    &&& cur.velocity == pre.velocity
    &&& cur.mass == pre.mass
    &&& v3(cur.acceleration) == steer_accel(
        pre,
        me,
        snap,
        ids,
        params,
        target_active,
        target,
        dtheta,
        dphi,
    )
    &&& cur.wander_theta == steer_angle(
        pre.wander_theta as int,
        pre.position,
        params,
        target_active,
        dtheta,
    )
    &&& cur.wander_phi == steer_angle(
        pre.wander_phi as int,
        pre.position,
        params,
        target_active,
        dphi,
    )
    &&& fits(cur.acceleration, 5 * COORD_LIMIT as int)
    &&& 0 <= cur.wander_theta < FULL_TURN
    &&& 0 <= cur.wander_phi < FULL_TURN
}

/// One tick of the whole simulation: snapshot every agent, rebuild the
/// spatial index if index mode is on, accumulate every agent's steering
/// forces against the snapshot, then integrate every agent.  The wander
/// perturbations are drawn fresh for every in-bounds wandering agent; the
/// postcondition exhibits the drawn values, and everything else is an
/// exact function of them.
pub fn advance(
    agents: &mut Vec<Vehicle>,
    params: &SteeringParameters,
    target_active: bool,
    target: &Point,
    dt_ms: i64,
)
    requires
        params.valid(),
        fits(*target, COORD_LIMIT as int),
        0 <= dt_ms <= 1_000_000,
        old(agents)@.len() <= AGENT_LIMIT,
        forall|i: int|
            0 <= i < old(agents)@.len() ==> (#[trigger] old(agents)@[i]).valid(*params),
    ensures
        final(agents)@.len() == old(agents)@.len(),
        forall|i: int|
            0 <= i < final(agents)@.len() ==> (#[trigger] final(agents)@[i]).valid(*params),
        exists|ds: Seq<(int, int)>|
            {
                &&& (#[trigger] ds.len()) == old(agents)@.len()
                &&& forall|i: int|
                    0 <= i < ds.len() ==> -params.wander_step <= (#[trigger] ds[i]).0
                        <= params.wander_step && -params.wander_step <= ds[i].1
                        <= params.wander_step
                &&& forall|i: int|
                    0 <= i < old(agents)@.len() ==> #[trigger] tick_rel(
                        old(agents)@[i],
                        final(agents)@[i],
                        i,
                        snapshot_of(old(agents)@),
                        neighbor_ids(snapshot_of(old(agents)@), *params, i),
                        *params,
                        target_active,
                        *target,
                        ds[i].0,
                        ds[i].1,
                        dt_ms as int,
                    )
            },
{
    let n = agents.len();

    // Phase 1: capture the immutable snapshot.
    let mut snap: Vec<AgentState> = Vec::new();
    let mut i: usize = 0;
    while i < n
        invariant
            i <= n,
            n == agents@.len(),
            agents@ == old(agents)@,
            forall|k: int| 0 <= k < n ==> (#[trigger] old(agents)@[k]).valid(*params),
            snap@.len() == i,
            forall|k: int|
                0 <= k < i ==> (#[trigger] snap@[k]) == (AgentState {
                    position: agents@[k].position,
                    velocity: agents@[k].velocity,
                }),
        decreases n - i,
    {
        snap.push(AgentState { position: agents[i].position, velocity: agents[i].velocity });
        i = i + 1;
    }
    proof {
        assert(snap@ =~= snapshot_of(old(agents)@));
        assert forall|k: int| 0 <= k < snap@.len() implies fits(
            (#[trigger] snap@[k]).position,
            COORD_LIMIT as int,
        ) && fits(snap@[k].velocity, COORD_LIMIT as int) by {
            assert(old(agents)@[k].valid(*params));
        }
    }

    let ghost mut ds: Seq<(int, int)> = Seq::empty();

    // Phase 2: accumulate every agent's steering forces.
    if params.use_octree {
        let tree = build_index(&snap, params);
        let mut i: usize = 0;
        while i < n
            invariant
                i <= n,
                n == agents@.len(),
                n == snap@.len(),
                n <= AGENT_LIMIT,
                params.valid(),
                fits(*target, COORD_LIMIT as int),
                params.use_octree,
                snap@ == snapshot_of(old(agents)@),
                snap_ok(snap@, COORD_LIMIT as int),
                forall|k: int| 0 <= k < n ==> (#[trigger] old(agents)@[k]).valid(*params),
                tree.wf(),
                tree@.root is Some,
                tree@ == built_tree(
                    snap@,
                    params.octree_size,
                    Point { x: 0, y: 0, z: 0 },
                    neg_point(params.world_half_extents),
                    params.world_half_extents,
                    snap@.len() as int,
                ),
                tree@.points.len() == snap@.len(),
                forall|s: int|
                    0 <= s < tree@.points.len() ==> (#[trigger] tree@.points[s]).data == s
                        && tree@.points[s].point == snap@[s].position,
                ds.len() == i,
                forall|k: int|
                    0 <= k < i ==> -params.wander_step <= (#[trigger] ds[k]).0
                        <= params.wander_step && -params.wander_step <= ds[k].1
                        <= params.wander_step,
                forall|k: int|
                    0 <= k < i ==> #[trigger] steered_rel(
                        old(agents)@[k],
                        agents@[k],
                        k,
                        snap@,
                        neighbor_ids(snap@, *params, k),
                        *params,
                        target_active,
                        *target,
                        ds[k].0,
                        ds[k].1,
                    ),
                forall|k: int| i <= k < n ==> #[trigger] agents@[k] == old(agents)@[k],
            decreases n - i,
        {
            let slots = tree.find_neighbors(&agents[i].position);
            let m = slots.len();
            let mut ids: Vec<usize> = Vec::new();
            let mut j: usize = 0;
            while j < m
                invariant
                    j <= m,
                    m == slots@.len(),
                    tree@.points.len() == snap@.len(),
                    forall|s: int|
                        0 <= s < tree@.points.len() ==> (#[trigger] tree@.points[s]).data == s
                            && tree@.points[s].point == snap@[s].position,
                    forall|q: int|
                        0 <= q < slots@.len() ==> (#[trigger] slots@[q]) < tree@.points.len(),
                    ids@.len() == j,
                    forall|q: int|
                        0 <= q < j ==> (#[trigger] ids@[q]) == tree@.points[slots@[q] as int].data,
                decreases m - j,
            {
                let p = tree.payload(slots[j]);
                ids.push(*p);
                j = j + 1;
            }
            proof {
                assert(ids@ =~= neighbor_ids(snap@, *params, i as int));
                assert forall|q: int| 0 <= q < ids@.len() implies (#[trigger] ids@[q])
                    < snap@.len() by {
                    assert(tree@.points[slots@[q] as int].data == slots@[q] as int);
                }
                let root = tree@.root.unwrap() as int;
                let leaf = tree@.descend(root, snap@[i as int].position);
                tree@.lemma_descend_props(root, snap@[i as int].position);
                tree@.lemma_node_len_bounded(leaf);
            }
            let (dtheta, dphi) = if target_active {
                (0i64, 0i64)
            } else {
                (
                    sample_range(-params.wander_step, params.wander_step),
                    sample_range(-params.wander_step, params.wander_step),
                )
            };
            steer_vehicle(
                &mut agents[i],
                i,
                &snap,
                &ids,
                params,
                target_active,
                target,
                dtheta,
                dphi,
            );
            proof {
                ds = ds.push((dtheta as int, dphi as int));
            }
            i = i + 1;
        }
    } else {
        let mut all: Vec<usize> = Vec::new();
        let mut j: usize = 0;
        while j < n
            invariant
                j <= n,
                all@.len() == j,
                forall|q: int| 0 <= q < j ==> (#[trigger] all@[q]) == q,
            decreases n - j,
        {
            all.push(j);
            j = j + 1;
        }
        let mut i: usize = 0;
        while i < n
            invariant
                i <= n,
                n == agents@.len(),
                n == snap@.len(),
                n <= AGENT_LIMIT,
                params.valid(),
                fits(*target, COORD_LIMIT as int),
                !params.use_octree,
                snap@ == snapshot_of(old(agents)@),
                snap_ok(snap@, COORD_LIMIT as int),
                forall|k: int| 0 <= k < n ==> (#[trigger] old(agents)@[k]).valid(*params),
                all@.len() == n,
                forall|q: int| 0 <= q < n ==> (#[trigger] all@[q]) == q,
                ds.len() == i,
                forall|k: int|
                    0 <= k < i ==> -params.wander_step <= (#[trigger] ds[k]).0
                        <= params.wander_step && -params.wander_step <= ds[k].1
                        <= params.wander_step,
                forall|k: int|
                    0 <= k < i ==> #[trigger] steered_rel(
                        old(agents)@[k],
                        agents@[k],
                        k,
                        snap@,
                        neighbor_ids(snap@, *params, k),
                        *params,
                        target_active,
                        *target,
                        ds[k].0,
                        ds[k].1,
                    ),
                forall|k: int| i <= k < n ==> #[trigger] agents@[k] == old(agents)@[k],
            decreases n - i,
        {
            proof {
                assert(all@ =~= neighbor_ids(snap@, *params, i as int));
            }
            let (dtheta, dphi) = if target_active {
                (0i64, 0i64)
            } else {
                (
                    sample_range(-params.wander_step, params.wander_step),
                    sample_range(-params.wander_step, params.wander_step),
                )
            };
            steer_vehicle(
                &mut agents[i],
                i,
                &snap,
                &all,
                params,
                target_active,
                target,
                dtheta,
                dphi,
            );
            proof {
                ds = ds.push((dtheta as int, dphi as int));
            }
            i = i + 1;
        }
    }

    // Phase 3: integrate every agent.
    let mut i: usize = 0;
    while i < n
        invariant
            i <= n,
            n == agents@.len(),
            n == ds.len(),
            params.valid(),
            0 <= dt_ms <= 1_000_000,
            forall|k: int| 0 <= k < n ==> (#[trigger] old(agents)@[k]).valid(*params),
            forall|k: int|
                0 <= k < n ==> -params.wander_step <= (#[trigger] ds[k]).0 <= params.wander_step
                    && -params.wander_step <= ds[k].1 <= params.wander_step,
            forall|k: int|
                i <= k < n ==> #[trigger] steered_rel(
                    old(agents)@[k],
                    agents@[k],
                    k,
                    snapshot_of(old(agents)@),
                    neighbor_ids(snapshot_of(old(agents)@), *params, k),
                    *params,
                    target_active,
                    *target,
                    ds[k].0,
                    ds[k].1,
                ),
            forall|k: int|
                0 <= k < i ==> #[trigger] tick_rel(
                    old(agents)@[k],
                    agents@[k],
                    k,
                    snapshot_of(old(agents)@),
                    neighbor_ids(snapshot_of(old(agents)@), *params, k),
                    *params,
                    target_active,
                    *target,
                    ds[k].0,
                    ds[k].1,
                    dt_ms as int,
                ),
            forall|k: int| 0 <= k < i ==> (#[trigger] agents@[k]).valid(*params),
        decreases n - i,
    {
        proof {
            assert(steered_rel(
                old(agents)@[i as int],
                agents@[i as int],
                i as int,
                snapshot_of(old(agents)@),
                neighbor_ids(snapshot_of(old(agents)@), *params, i as int),
                *params,
                target_active,
                *target,
                ds[i as int].0,
                ds[i as int].1,
            ));
            assert(old(agents)@[i as int].valid(*params));
        }
        update_vehicle(&mut agents[i], params.vehicle_max_speed, dt_ms);
        i = i + 1;
    }
    proof {
        assert(final(agents)@.len() == old(agents)@.len());
    }
}

} // verus!
