//! The fixed-point scalar representation and its arithmetic.

use vstd::prelude::*;

verus! {

/// Number of fixed-point units in one real unit.  Every swarm scalar,
/// coefficient, threshold and random draw is an `i64` counted in units of
/// `1 / SCALE`.
pub const SCALE: i64 = 1_000_000;

/// Largest coefficient the update engine accepts (one million real units);
/// the bound keeps every intermediate product of a step inside 128 bits.
pub const COEFF_MAX: i64 = 1_000_000_000_000;

/// Largest magnitude of a difference of two `i64` scalars.
pub const DIFF_MAX: i128 = 18_446_744_073_709_551_615;

/// Largest magnitude of one attraction term: `COEFF_MAX * DIFF_MAX / SCALE`.
pub const TERM_MAX: i128 = 18_446_744_073_709_551_615_000_000;

/// Whether a mathematical integer is representable as an `i64` scalar.
pub open spec fn fits_scalar(x: int) -> bool {
    i64::MIN <= x <= i64::MAX
}

/// Whether a value drawn from the random source lies in the unit
/// interval `[0, 1)`, that is in `[0, SCALE)` fixed-point units.
pub open spec fn unit_draw(r: int) -> bool {
    0 <= r < SCALE
}

/// The attraction term `c * r * d / SCALE^2`, rounded toward zero: the pull
/// a particle at distance `d` feels under coefficient `c` and random draw
/// `r`.  `c` and `r` are both fixed-point, hence the division by `SCALE`
/// twice.
pub open spec fn attraction(c: int, r: int, d: int) -> int {
    if d >= 0 {
        (c * r * d) / (SCALE * SCALE)
    } else {
        -((c * r * (-d)) / (SCALE * SCALE))
    }
}

/// Computes `attraction(c, r, d)` exactly, in 128-bit arithmetic.
pub fn attraction_term(c: i64, r: i64, d: i128) -> (t: i128)
    requires
        0 <= c <= COEFF_MAX,
        0 <= r < SCALE,
        -DIFF_MAX <= d <= DIFF_MAX,
    ensures
        t == attraction(c as int, r as int, d as int),
        -TERM_MAX <= t <= TERM_MAX,
{
    let neg: bool = d < 0;
    let mag: u128 = if neg {
        (-d) as u128
    } else {
        d as u128
    };
    proof {
        assert((c as int) * (r as int) <= 1_000_000_000_000 * 1_000_000) by (nonlinear_arith)
            requires
                0 <= c as int <= 1_000_000_000_000,
                0 <= r as int <= 1_000_000,
        ;
        assert((c as int) * (r as int) * (mag as int) <= 1_000_000_000_000_000_000
            * 18_446_744_073_709_551_615) by (nonlinear_arith)
            requires
                0 <= (c as int) * (r as int) <= 1_000_000_000_000_000_000,
                0 <= mag as int <= 18_446_744_073_709_551_615,
        ;
        assert(0 <= (c as int) * (r as int) * (mag as int)) by (nonlinear_arith)
            requires
                0 <= (c as int) * (r as int),
                0 <= mag as int,
        ;
    }
    let prod: u128 = (c as u128) * (r as u128) * mag;
    let q: u128 = prod / 1_000_000_000_000u128;
    proof {
        vstd::arithmetic::div_mod::lemma_div_is_ordered(
            prod as int,
            18_446_744_073_709_551_615_000_000_000_000_000_000,
            1_000_000_000_000,
        );
        assert(SCALE * SCALE == 1_000_000_000_000);
    }
    if neg {
        -(q as i128)
    } else {
        q as i128
    }
}

} // verus!
