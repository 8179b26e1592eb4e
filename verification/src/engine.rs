//! The update engine's mathematics: what one optimization step does to a
//! swarm, and the per-step laws of the update rule.

use vstd::prelude::*;
use crate::objective::Objective;
use crate::scalar::{attraction, fits_scalar, COEFF_MAX};
use crate::scalar::unit_draw;
use crate::swarm::{
    at_least_as_good, best_in, strictly_better, Direction, ParticleSwarm, SwarmError, SwarmView,
};

verus! {

/// The immutable update coefficients: `cognitive` scales the pull toward a
/// particle's own best, `social` the pull toward the swarm's best.  Both are
/// fixed-point scalars (the classic default pair is one half each).
pub struct Coefficients {
    pub cognitive: i64,
    pub social: i64,
}

impl Coefficients {
    /// Both coefficients are non-negative and within the engine's cap.
    pub open spec fn valid(&self) -> bool {
        &&& 0 <= self.cognitive <= COEFF_MAX
        &&& 0 <= self.social <= COEFF_MAX
    }

    /// Builds a coefficient pair, refusing a negative or oversized one.
    pub fn new(cognitive: i64, social: i64) -> (result: Result<Coefficients, SwarmError>)
        ensures
            match result {
                Result::Ok(c) => c.cognitive == cognitive && c.social == social && c.valid(),
                Result::Err(e) => e == SwarmError::ValueOutOfRange && !(Coefficients {
                    cognitive,
                    social,
                }).valid(),
            },
    {
        if 0 <= cognitive && cognitive <= COEFF_MAX && 0 <= social && social <= COEFF_MAX {
            Result::Ok(Coefficients { cognitive, social })
        } else {
            Result::Err(SwarmError::ValueOutOfRange)
        }
    }
}

/// Sub-step 1: every particle moves by its current velocity.
pub open spec fn moved_positions(v: SwarmView) -> Seq<int> {
    Seq::new(v.position.len(), |i: int| v.position[i] + v.velocity[i])
}

/// Sub-step 2: a personal best is replaced only by a strictly better
/// position; on a tie the earlier recorded best stays.
pub open spec fn improved_bests<O: Objective>(
    o: O,
    dir: Direction,
    pos: Seq<int>,
    pb: Seq<int>,
) -> Seq<int> {
    Seq::new(
        pb.len(),
        |i: int|
            if strictly_better(o, dir, pos[i], pb[i]) {
                pos[i]
            } else {
                pb[i]
            },
    )
}

/// Sub-step 4 for one particle: the old velocity plus the attraction toward
/// the particle's own best and toward the swarm's best, both measured from
/// the already moved position.  No inertia weight is applied: the old
/// velocity enters with coefficient one, deliberately.
pub open spec fn next_velocity(
    c: Coefficients,
    vel: int,
    pos: int,
    pb: int,
    gb: int,
    r1: int,
    r2: int,
) -> int {
    vel + attraction(c.cognitive as int, r1, pb - pos) + attraction(c.social as int, r2, gb - pos)
}

/// One complete optimization step: positions move first, then the personal
/// bests absorb strict improvements, then the global best is recomputed by a
/// full scan of the new personal bests, and last the velocities are updated
/// from the post-move positions and the fresh global best.
pub open spec fn stepped<O: Objective>(
    o: O,
    dir: Direction,
    c: Coefficients,
    v: SwarmView,
    r1s: Seq<int>,
    r2s: Seq<int>,
) -> SwarmView {
    let pos2 = moved_positions(v);
    let pb2 = improved_bests(o, dir, pos2, v.personal_best);
    let gb2 = best_in(o, dir, pb2);
    SwarmView {
        position: pos2,
        velocity: Seq::new(
            v.velocity.len(),
            |i: int| next_velocity(c, v.velocity[i], pos2[i], pb2[i], gb2, r1s[i], r2s[i]),
        ),
        personal_best: pb2,
        global_best: Option::Some(gb2),
    }
}

/// Whether particle `i` of a step stays representable: its moved position
/// fits an `i64`, the two scalars handed to the objective lie in its domain,
/// and its new velocity fits an `i64`.
pub open spec fn step_fits_at<O: Objective>(
    o: O,
    dir: Direction,
    c: Coefficients,
    v: SwarmView,
    r1s: Seq<int>,
    r2s: Seq<int>,
    i: int,
) -> bool {
    let pos2 = moved_positions(v);
    let w = stepped(o, dir, c, v, r1s, r2s);
    &&& fits_scalar(pos2[i])
    &&& o.in_domain(pos2[i])
    &&& o.in_domain(v.personal_best[i])
    &&& fits_scalar(w.velocity[i])
}

/// Whether every value the step computes stays representable, for every
/// particle.
pub open spec fn step_fits<O: Objective>(
    o: O,
    dir: Direction,
    c: Coefficients,
    v: SwarmView,
    r1s: Seq<int>,
    r2s: Seq<int>,
) -> bool {
    forall|i: int| 0 <= i < v.position.len() ==> step_fits_at(o, dir, c, v, r1s, r2s, i)
}

/// What one step with a random source guarantees, stated over the draws it
/// used: the draws are unit-interval, and the swarm after the call relates
/// to the swarm before it exactly as `step_with_draws` promises for those
/// draws.
pub open spec fn step_outcome<O: Objective>(
    o: O,
    dir: Direction,
    c: Coefficients,
    before: ParticleSwarm,
    after: ParticleSwarm,
    result: Result<(), SwarmError>,
    r1s: Seq<int>,
    r2s: Seq<int>,
) -> bool {
    &&& r1s.len() == before@.position.len()
    &&& r2s.len() == before@.position.len()
    &&& (forall|i: int| 0 <= i < r1s.len() ==> unit_draw(r1s[i]))
    &&& (forall|i: int| 0 <= i < r2s.len() ==> unit_draw(r2s[i]))
    &&& match result {
        Result::Ok(_) => step_fits(o, dir, c, before@, r1s, r2s) && after@ == stepped(
            o,
            dir,
            c,
            before@,
            r1s,
            r2s,
        ) && after.wf(o, dir),
        Result::Err(e) => e == SwarmError::ValueOutOfRange && after == before && !step_fits(
            o,
            dir,
            c,
            before@,
            r1s,
            r2s,
        ),
    }
}

/// A step never worsens a personal best: afterwards it is still at least as
/// good as the particle's previous personal best, and at least as good as
/// the particle's new position.
pub proof fn lemma_step_personal_best<O: Objective>(
    o: O,
    dir: Direction,
    c: Coefficients,
    v: SwarmView,
    r1s: Seq<int>,
    r2s: Seq<int>,
    i: int,
)
    requires
        v.personal_best.len() == v.position.len(),
        0 <= i < v.position.len(),
    ensures
        at_least_as_good(o, dir, stepped(o, dir, c, v, r1s, r2s).personal_best[i], v.personal_best[i]),
        at_least_as_good(o, dir, stepped(o, dir, c, v, r1s, r2s).personal_best[i], stepped(o, dir, c, v, r1s, r2s).position[i]),
{
}

/// The global best a step records is exactly the direction-best of the new
/// personal bests, recomputed from scratch: it does not depend on the
/// previous global best.
pub proof fn lemma_step_global_best<O: Objective>(
    o: O,
    dir: Direction,
    c: Coefficients,
    v: SwarmView,
    r1s: Seq<int>,
    r2s: Seq<int>,
)
    ensures
        stepped(o, dir, c, v, r1s, r2s).global_best == Option::<int>::Some(
            best_in(o, dir, stepped(o, dir, c, v, r1s, r2s).personal_best),
        ),
{
}

} // verus!
