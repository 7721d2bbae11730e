//! The configuration surface of the steering engine: one immutable snapshot
//! of every behaviour weight, trigger distance and world dimension, read by
//! each tick.
//!
//! Lengths, positions and speeds are fixed-point integers in thousandths of
//! a world unit; behaviour weight factors are in hundredths (a factor of
//! 150 means 1.5); angles are in hundredths of a degree.

use vstd::prelude::*;

use crate::geom::{fits, Point, COORD_LIMIT};
use crate::trig::HALF_TURN;

verus! {

/// Weight factors are stored in hundredths: a limit of
/// `max_speed * factor / 100` caps each behaviour's force.
pub const FACTOR_UNIT: i64 = 100;

/// One thousandth of a world unit is the fixed-point resolution of every
/// length in the simulation.
pub const MILLI: i64 = 1000;

/// Read-only per-tick configuration of the flocking engine.
pub struct SteeringParameters {
    /// Agent size, in milli-units; scales the three flocking distances.
    pub vehicle_size: i64,
    /// Agent mass; a force adds `force / mass` to the acceleration.
    pub vehicle_mass: i64,
    /// Magnitude given to the wander desire, in milli-units per second.
    pub vehicle_wander_speed: i64,
    /// Upper bound on every velocity component, in milli-units per second.
    pub vehicle_max_speed: i64,
    /// Behaviour weights, in hundredths.
    pub separation_factor: i64,
    pub alignment_factor: i64,
    pub cohesion_factor: i64,
    pub wander_factor: i64,
    pub wall_avoid_factor: i64,
    pub seek_factor: i64,
    /// Trigger distances, as unitless multiples of `vehicle_size`.
    pub separation_distance: i64,
    pub alignment_distance: i64,
    pub cohesion_distance: i64,
    /// How far ahead the wander sphere sits, in milli-units.
    pub wander_distance: i64,
    /// Radius of the wander sphere, in milli-units.
    pub wander_radius: i64,
    /// Largest per-tick change of each wander angle, in hundredths of a
    /// degree.
    pub wander_step: i64,
    /// Half extents of the world cuboid, in milli-units.
    pub world_half_extents: Point,
    /// Whether neighbour queries go through the spatial index or a full
    /// scan of the snapshot.
    pub use_octree: bool,
    /// Leaf capacity of the spatial index.
    pub octree_size: usize,
    /// How many agents the surrounding application should keep alive.
    pub vehicle_count: usize,
}

/// The force cap of one behaviour: `max_speed * factor / 100`.
pub open spec fn limit_of(max_speed: int, factor: int) -> int {
    max_speed * factor / (FACTOR_UNIT as int)
}

/// The squared trigger distance of one behaviour:
/// `(vehicle_size * distance)^2`.
pub open spec fn trigger_d2(size: int, distance: int) -> int {
    (size * distance) * (size * distance)
}

impl SteeringParameters {
    /// Every knob within the ranges the arithmetic of a tick relies on:
    /// positive divisors, speeds and lengths inside the coordinate bound,
    /// factors at most a hundredfold.
    pub open spec fn valid(self) -> bool {
        &&& 1 <= self.vehicle_max_speed <= COORD_LIMIT
        &&& 1 <= self.vehicle_mass
        &&& 0 <= self.vehicle_wander_speed <= COORD_LIMIT
        &&& 0 <= self.vehicle_size
        &&& 0 <= self.separation_distance
        &&& 0 <= self.alignment_distance
        &&& 0 <= self.cohesion_distance
        &&& self.vehicle_size * self.separation_distance <= COORD_LIMIT
        &&& self.vehicle_size * self.alignment_distance <= COORD_LIMIT
        &&& self.vehicle_size * self.cohesion_distance <= COORD_LIMIT
        &&& 0 <= self.separation_factor <= 100 * FACTOR_UNIT
        &&& 0 <= self.alignment_factor <= 100 * FACTOR_UNIT
        &&& 0 <= self.cohesion_factor <= 100 * FACTOR_UNIT
        &&& 0 <= self.wander_factor <= 100 * FACTOR_UNIT
        &&& 0 <= self.wall_avoid_factor <= 100 * FACTOR_UNIT
        &&& 0 <= self.seek_factor <= 100 * FACTOR_UNIT
        &&& limit_of(self.vehicle_max_speed as int, self.separation_factor as int) <= COORD_LIMIT
        &&& limit_of(self.vehicle_max_speed as int, self.alignment_factor as int) <= COORD_LIMIT
        &&& limit_of(self.vehicle_max_speed as int, self.cohesion_factor as int) <= COORD_LIMIT
        &&& limit_of(self.vehicle_max_speed as int, self.wander_factor as int) <= COORD_LIMIT
        &&& limit_of(self.vehicle_max_speed as int, self.wall_avoid_factor as int) <= COORD_LIMIT
        &&& limit_of(self.vehicle_max_speed as int, self.seek_factor as int) <= COORD_LIMIT
        &&& 0 <= self.wander_distance <= COORD_LIMIT
        &&& 0 <= self.wander_radius <= COORD_LIMIT
        &&& 0 <= self.wander_step <= HALF_TURN
        &&& fits(self.world_half_extents, COORD_LIMIT as int)
        &&& self.world_half_extents.x >= 0
        &&& self.world_half_extents.y >= 0
        &&& self.world_half_extents.z >= 0
    }

    /// The force cap of a behaviour, computed without overflow.
    pub fn limit_value(&self, factor: i64) -> (r: i64)
        requires
            self.valid(),
            0 <= factor <= 100 * FACTOR_UNIT,
        ensures
            r == limit_of(self.vehicle_max_speed as int, factor as int),
            0 <= r <= self.vehicle_max_speed * factor / (FACTOR_UNIT as int),
    {
        proof {
            assert(self.vehicle_max_speed * factor <= COORD_LIMIT * (100 * FACTOR_UNIT))
                by (nonlinear_arith)
                requires
                    1 <= self.vehicle_max_speed <= COORD_LIMIT,
                    0 <= factor <= 100 * FACTOR_UNIT;
        }
        let prod: u64 = (self.vehicle_max_speed as u64) * (factor as u64);
        proof {
            vstd::arithmetic::div_mod::lemma_div_pos_is_pos(prod as int, FACTOR_UNIT as int);
            vstd::arithmetic::div_mod::lemma_div_nonincreasing(prod as int, FACTOR_UNIT as int);
        }
        (prod / (FACTOR_UNIT as u64)) as i64
    }

    /// The squared trigger distance of a behaviour, computed without
    /// overflow.
    pub fn trigger_value(&self, distance: i64) -> (r: i64)
        requires
            self.valid(),
            0 <= distance,
            self.vehicle_size * distance <= COORD_LIMIT,
        ensures
            r == trigger_d2(self.vehicle_size as int, distance as int),
            0 <= r <= 0x3000_0000_0000_0000,
    {
        proof {
            assert(0 <= self.vehicle_size * distance <= COORD_LIMIT) by (nonlinear_arith)
                requires
                    0 <= self.vehicle_size,
                    0 <= distance,
                    self.vehicle_size * distance <= COORD_LIMIT;
        }
        let d = self.vehicle_size * distance;
        proof {
            crate::geom::lemma_sq_bound(d as int, COORD_LIMIT as int);
        }
        d * d
    }
}

impl Default for SteeringParameters {
    /// The stock configuration of the simulation: a hundred agents of mass
    /// 60 and size 1 unit, a top speed of 80 units per second, and the
    /// usual weights and trigger distances of the five behaviours.
    fn default() -> (r: Self)
        ensures
            r == (SteeringParameters {
                vehicle_size: 1000,
                vehicle_mass: 60,
                vehicle_wander_speed: 40000,
                vehicle_max_speed: 80000,
                separation_factor: 150,
                alignment_factor: 300,
                cohesion_factor: 400,
                wander_factor: 100,
                wall_avoid_factor: 150,
                seek_factor: 700,
                separation_distance: 4,
                alignment_distance: 30,
                cohesion_distance: 20,
                wander_distance: 4000,
                wander_radius: 1500,
                wander_step: 1125,
                world_half_extents: Point { x: 2000000, y: 2000000, z: 1000000 },
                use_octree: false,
                octree_size: 100,
                vehicle_count: 100,
            }),
            r.valid(),
    {
        SteeringParameters {
            vehicle_size: 1000,
            vehicle_mass: 60,
            vehicle_wander_speed: 40000,
            vehicle_max_speed: 80000,
            separation_factor: 150,
            alignment_factor: 300,
            cohesion_factor: 400,
            wander_factor: 100,
            wall_avoid_factor: 150,
            seek_factor: 700,
            separation_distance: 4,
            alignment_distance: 30,
            cohesion_distance: 20,
            wander_distance: 4000,
            wander_radius: 1500,
            wander_step: 1125,
            world_half_extents: Point { x: 2000000, y: 2000000, z: 1000000 },
            use_octree: false,
            octree_size: 100,
            vehicle_count: 100,
        }
    }
}

} // verus!
