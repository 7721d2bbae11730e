//! Fixed-point trigonometry for the wander behaviour.
//!
//! Angles are measured in hundredths of a degree, kept in `[0, 36000)`.
//! Sine and cosine are computed with Bhaskara I's rational approximation,
//! scaled so that 1.0 becomes `TRIG_SCALE`.  The approximation is exact at
//! multiples of 90 degrees and stays within about 0.2% elsewhere, which is
//! plenty for steering a drifting wander target.

use vstd::prelude::*;

verus! {

/// A full turn, in hundredths of a degree.
pub const FULL_TURN: i64 = 36000;

/// Half a turn, in hundredths of a degree.
pub const HALF_TURN: i64 = 18000;

/// A quarter turn, in hundredths of a degree.
pub const QUARTER_TURN: i64 = 9000;

/// Fixed-point unit for sine and cosine values.
pub const TRIG_SCALE: i64 = 10000;

/// Bhaskara I's sine approximation on `[0, HALF_TURN]`, scaled by
/// `TRIG_SCALE`: `sin(x) ~ 4x(18000 - x) / (405000000 - x(18000 - x))`.
pub open spec fn bhaskara(x: int) -> int {
    (4 * TRIG_SCALE * (x * (HALF_TURN - x))) / (405000000 - x * (HALF_TURN - x))
}

/// Scaled sine of an angle already reduced into `[0, FULL_TURN)`.
pub open spec fn sin_reduced(a: int) -> int {
    if a < HALF_TURN {
        bhaskara(a)
    } else {
        -bhaskara(a - HALF_TURN)
    }
}

/// Reduction of an angle that strayed less than one turn outside `[0,
/// FULL_TURN)` back into that interval.
pub open spec fn wrap_spec(a: int) -> int {
    if a < 0 {
        a + FULL_TURN
    } else if a >= FULL_TURN {
        a - FULL_TURN
    } else {
        a
    }
}

/// Wrap an angle that drifted less than one turn out of range back into
/// `[0, FULL_TURN)`.
pub fn wrap_angle(a: i64) -> (r: i64)
    requires
        -FULL_TURN <= a < 2 * FULL_TURN,
    ensures
        r == wrap_spec(a as int),
        0 <= r < FULL_TURN,
{
    if a < 0 {
        a + FULL_TURN
    } else if a >= FULL_TURN {
        a - FULL_TURN
    } else {
        a
    }
}

/// The product `x * (HALF_TURN - x)` stays within `[0, 81000000]` on the
/// half-turn interval.
proof fn lemma_hump_range(x: int)
    by (nonlinear_arith)
    requires
        0 <= x <= HALF_TURN,
    ensures
        0 <= x * (HALF_TURN - x) <= 81000000,
{
    assert((x - 9000) * (x - 9000) >= 0);
}

/// Bhaskara's approximation on the first half turn, by integer arithmetic.
fn bhaskara_exec(x: i64) -> (r: i64)
    requires
        0 <= x <= HALF_TURN,
    ensures
        r == bhaskara(x as int),
        0 <= r <= TRIG_SCALE,
{
    proof {
        lemma_hump_range(x as int);
    }
    let p = x * (HALF_TURN - x);
    let num = 4 * TRIG_SCALE * p;
    let den = 405000000 - p;
    let q: u64 = (num as u64) / (den as u64);
    proof {
        vstd::arithmetic::div_mod::lemma_div_pos_is_pos(num as int, den as int);
        vstd::arithmetic::div_mod::lemma_remainder_lower(num as int, den as int);
        assert(num as int / den as int <= TRIG_SCALE) by {
            assert(num <= TRIG_SCALE * den) by (nonlinear_arith)
                requires
                    num == 4 * TRIG_SCALE * p,
                    den == 405000000 - p,
                    0 <= p <= 81000000;
            vstd::arithmetic::div_mod::lemma_div_multiples_vanish(TRIG_SCALE as int, den as int);
            vstd::arithmetic::div_mod::lemma_div_is_ordered(num as int, TRIG_SCALE * den, den as int);
        }
    }
    q as i64
}

/// Scaled sine of a reduced angle; negative on the second half turn.
pub fn sin_cd(a: i64) -> (r: i64)
    requires
        0 <= a < FULL_TURN,
    ensures
        r == sin_reduced(a as int),
        -TRIG_SCALE <= r <= TRIG_SCALE,
{
    if a < HALF_TURN {
        bhaskara_exec(a)
    } else {
        -bhaskara_exec(a - HALF_TURN)
    }
}

/// Scaled cosine of a reduced angle, as the sine shifted by a quarter turn.
pub fn cos_cd(a: i64) -> (r: i64)
    requires
        0 <= a < FULL_TURN,
    ensures
        r == sin_reduced(wrap_spec(a + QUARTER_TURN)),
        -TRIG_SCALE <= r <= TRIG_SCALE,
{
    let shifted = wrap_angle(a + QUARTER_TURN);
    sin_cd(shifted)
}

} // verus!
