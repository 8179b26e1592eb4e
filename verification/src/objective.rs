//! Objective functions: what the swarm optimizes.

use vstd::prelude::*;
use crate::scalar::SCALE;

verus! {

/// A user-supplied objective function over fixed-point scalars.
///
/// `value` is the mathematical function being optimized; `eval` computes it
/// exactly on every scalar of the domain.  The domain names the scalars on
/// which the 64-bit computation is exact; outside it the swarm reports
/// `ValueOutOfRange` instead of evaluating.
pub trait Objective: Sized {
    /// The scalars on which `eval` is defined.
    spec fn in_domain(&self, x: int) -> bool;

    /// The objective value at `x`, in fixed-point units.
    spec fn value(&self, x: int) -> int;

    /// Decides whether `x` lies in the domain.
    fn check_domain(&self, x: i64) -> (b: bool)
        ensures
            b == self.in_domain(x as int),
    ;

    /// Evaluates the objective at `x`.
    fn eval(&self, x: i64) -> (r: i64)
        requires
            self.in_domain(x as int),
        ensures
            r as int == self.value(x as int),
    ;
}

/// Radius of the domain of `SquaredDistance` around its target: the largest
/// `|x - target|` whose square still fits an `i64` after the fixed-point
/// rescaling.
pub const DOMAIN_RADIUS: i64 = 3_000_000_000_000;

/// The demonstration objective `y = (x - target)^2`: a parabola whose
/// minimum of zero sits at `target` (the demo puts it at one real unit).
pub struct SquaredDistance {
    pub target: i64,
}

impl Objective for SquaredDistance {
    open spec fn in_domain(&self, x: int) -> bool {
        -(DOMAIN_RADIUS as int) <= x - self.target <= DOMAIN_RADIUS as int
    }

    open spec fn value(&self, x: int) -> int {
        ((x - self.target) * (x - self.target)) / (SCALE as int)
    }

    fn check_domain(&self, x: i64) -> (b: bool) {
        let d: i128 = x as i128 - self.target as i128;
        -(DOMAIN_RADIUS as i128) <= d && d <= DOMAIN_RADIUS as i128
    }

    fn eval(&self, x: i64) -> (r: i64) {
        let d: i128 = x as i128 - self.target as i128;
        let mag: u128 = if d < 0 {
            (-d) as u128
        } else {
            d as u128
        };
        proof {
            assert((mag as int) * (mag as int) == (d as int) * (d as int)) by (nonlinear_arith)
                requires
                    mag as int == d as int || mag as int == -(d as int),
            ;
            assert((mag as int) * (mag as int) <= 3_000_000_000_000 * 3_000_000_000_000)
                by (nonlinear_arith)
                requires
                    0 <= mag as int <= 3_000_000_000_000,
            ;
        }
        let sq: u128 = mag * mag;
        let q: u128 = sq / 1_000_000u128;
        proof {
            vstd::arithmetic::div_mod::lemma_div_is_ordered(
                sq as int,
                9_000_000_000_000_000_000_000_000,
                1_000_000,
            );
        }
        q as i64
    }
}

} // verus!
