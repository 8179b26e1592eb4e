//! The termination policy: driving repeated steps, and the laws that hold
//! across a whole run.

use vstd::prelude::*;
use crate::engine::{
    lemma_step_personal_best, step_fits, step_outcome, stepped, Coefficients,
};
use crate::objective::Objective;
use crate::random::RandomSource;
use crate::scalar::unit_draw;
use crate::swarm::{
    at_least_as_good, Direction, ParticleSwarm, SwarmError, SwarmView,
};

verus! {

/// The two unit-interval draws of every particle for one step.
pub ghost struct StepDraws {
    pub r1: Seq<int>,
    pub r2: Seq<int>,
}

/// Whether `d` is a complete set of unit-interval draws for `n` particles.
pub open spec fn draws_valid(d: StepDraws, n: nat) -> bool {
    &&& d.r1.len() == n
    &&& d.r2.len() == n
    &&& forall|i: int| 0 <= i < n ==> unit_draw(d.r1[i]) && unit_draw(d.r2[i])
}

/// The swarm after replaying a whole draw history, one step per entry.
pub open spec fn run_from<O: Objective>(
    o: O,
    dir: Direction,
    c: Coefficients,
    v: SwarmView,
    hist: Seq<StepDraws>,
) -> SwarmView
    decreases hist.len(),
{
    if hist.len() == 0 {
        v
    } else {
        run_from(o, dir, c, stepped(o, dir, c, v, hist[0].r1, hist[0].r2), hist.drop_first())
    }
}

/// Replaying one more step extends the run at its end.
pub proof fn lemma_run_from_snoc<O: Objective>(
    o: O,
    dir: Direction,
    c: Coefficients,
    v: SwarmView,
    hist: Seq<StepDraws>,
    d: StepDraws,
)
    ensures
        run_from(o, dir, c, v, hist.push(d)) == stepped(
            o,
            dir,
            c,
            run_from(o, dir, c, v, hist),
            d.r1,
            d.r2,
        ),
    decreases hist.len(),
{
    if hist.len() == 0 {
        assert(hist.push(d)[0] == d);
        assert(hist.push(d).drop_first() =~= Seq::<StepDraws>::empty());
        let w1 = stepped(o, dir, c, v, d.r1, d.r2);
        assert(run_from(o, dir, c, v, hist) == v);
        assert(run_from(o, dir, c, w1, Seq::<StepDraws>::empty()) == w1);
        assert(run_from(o, dir, c, v, hist.push(d)) == run_from(
            o,
            dir,
            c,
            w1,
            hist.push(d).drop_first(),
        ));
    } else {
        assert(hist.push(d)[0] == hist[0]);
        assert(hist.push(d).drop_first() =~= hist.drop_first().push(d));
        lemma_run_from_snoc(
            o,
            dir,
            c,
            stepped(o, dir, c, v, hist[0].r1, hist[0].r2),
            hist.drop_first(),
            d,
        );
    }
}

/// Determinism: replaying equal histories from equal swarm states under
/// equal coefficients yields equal trajectories, state for state.
pub proof fn lemma_run_deterministic<O: Objective>(
    o: O,
    dir: Direction,
    c: Coefficients,
    v1: SwarmView,
    v2: SwarmView,
    h1: Seq<StepDraws>,
    h2: Seq<StepDraws>,
)
    requires
        v1 == v2,
        h1 == h2,
    ensures
        forall|k: int|
            0 <= k <= h1.len() ==> run_from(o, dir, c, v1, h1.take(k)) == run_from(
                o,
                dir,
                c,
                v2,
                h2.take(k),
            ),
{
}

/// The three sequences of a view are parallel.
pub open spec fn parallel(v: SwarmView) -> bool {
    &&& v.velocity.len() == v.position.len()
    &&& v.personal_best.len() == v.position.len()
}

/// Every personal best is at least as good as its particle's current
/// position.
pub open spec fn bests_dominate<O: Objective>(o: O, dir: Direction, v: SwarmView) -> bool {
    forall|i: int|
        0 <= i < v.position.len() ==> at_least_as_good(o, dir, v.personal_best[i], v.position[i])
}

/// One step keeps the sequences parallel and keeps every personal best at
/// least as good as its particle's position.
pub proof fn lemma_step_preserves<O: Objective>(
    o: O,
    dir: Direction,
    c: Coefficients,
    v: SwarmView,
    r1s: Seq<int>,
    r2s: Seq<int>,
)
    requires
        parallel(v),
        bests_dominate(o, dir, v),
    ensures
        parallel(stepped(o, dir, c, v, r1s, r2s)),
        bests_dominate(o, dir, stepped(o, dir, c, v, r1s, r2s)),
        forall|i: int|
            0 <= i < v.position.len() ==> at_least_as_good(
                o,
                dir,
                stepped(o, dir, c, v, r1s, r2s).personal_best[i],
                v.personal_best[i],
            ),
{
    let w = stepped(o, dir, c, v, r1s, r2s);
    assert forall|i: int| 0 <= i < v.position.len() implies at_least_as_good(
        o,
        dir,
        w.personal_best[i],
        w.position[i],
    ) && at_least_as_good(o, dir, w.personal_best[i], v.personal_best[i]) by {
        lemma_step_personal_best(o, dir, c, v, r1s, r2s, i);
    }
}

/// Across a whole run a personal best only improves.
pub proof fn lemma_run_personal_best_monotone<O: Objective>(
    o: O,
    dir: Direction,
    c: Coefficients,
    v: SwarmView,
    hist: Seq<StepDraws>,
    i: int,
)
    requires
        parallel(v),
        bests_dominate(o, dir, v),
        0 <= i < v.position.len(),
    ensures
        at_least_as_good(
            o,
            dir,
            run_from(o, dir, c, v, hist).personal_best[i],
            v.personal_best[i],
        ),
        parallel(run_from(o, dir, c, v, hist)),
        bests_dominate(o, dir, run_from(o, dir, c, v, hist)),
        run_from(o, dir, c, v, hist).position.len() == v.position.len(),
    decreases hist.len(),
{
    if hist.len() > 0 {
        let w1 = stepped(o, dir, c, v, hist[0].r1, hist[0].r2);
        lemma_step_preserves(o, dir, c, v, hist[0].r1, hist[0].r2);
        lemma_run_personal_best_monotone(o, dir, c, w1, hist.drop_first(), i);
    }
}

/// A freshly constructed swarm meets the premises of the history law: both
/// construction modes copy the positions into the personal bests, and a
/// value is never strictly better than itself.
pub proof fn lemma_fresh_swarm_dominates<O: Objective>(o: O, dir: Direction, v: SwarmView)
    requires
        v.personal_best == v.position,
        v.velocity.len() == v.position.len(),
    ensures
        parallel(v),
        bests_dominate(o, dir, v),
{
}

/// A personal best is never worse than any position its particle held at
/// any earlier point of the run: replay a history, stop the replay after
/// any prefix, and the final personal best is still at least as good as the
/// position held there.
pub proof fn lemma_personal_best_never_worse<O: Objective>(
    o: O,
    dir: Direction,
    c: Coefficients,
    v: SwarmView,
    hist: Seq<StepDraws>,
    k: int,
    i: int,
)
    requires
        parallel(v),
        bests_dominate(o, dir, v),
        0 <= k <= hist.len(),
        0 <= i < v.position.len(),
    ensures
        at_least_as_good(
            o,
            dir,
            run_from(o, dir, c, v, hist).personal_best[i],
            run_from(o, dir, c, v, hist.take(k)).position[i],
        ),
    decreases hist.len(),
{
    if hist.len() == 0 {
        assert(hist.take(0) =~= hist);
    } else if k == 0 {
        assert(hist.take(0) =~= Seq::<StepDraws>::empty());
        lemma_run_personal_best_monotone(o, dir, c, v, hist, i);
    } else {
        let w1 = stepped(o, dir, c, v, hist[0].r1, hist[0].r2);
        lemma_step_preserves(o, dir, c, v, hist[0].r1, hist[0].r2);
        assert(hist.take(k)[0] == hist[0]);
        assert(hist.take(k).drop_first() =~= hist.drop_first().take(k - 1));
        lemma_personal_best_never_worse(o, dir, c, w1, hist.drop_first(), k - 1, i);
    }
}

/// Some admissible draws make the next step from `from` leave the
/// representable range: the witness a failing `step` hands back.
pub open spec fn step_can_fail<O: Objective>(
    o: O,
    dir: Direction,
    c: Coefficients,
    from: ParticleSwarm,
) -> bool {
    exists|r1s: Seq<int>, r2s: Seq<int>|
        {
            &&& r1s.len() == from@.position.len()
            &&& r2s.len() == from@.position.len()
            &&& (forall|i: int| 0 <= i < r1s.len() ==> unit_draw(r1s[i]))
            &&& (forall|i: int| 0 <= i < r2s.len() ==> unit_draw(r2s[i]))
            &&& !step_fits(o, dir, c, from@, r1s, r2s)
        }
}

/// The view's global best is set and lies in the objective's domain.
pub open spec fn best_in_domain<O: Objective>(o: O, v: SwarmView) -> bool {
    match v.global_best {
        Option::Some(g) => o.in_domain(g),
        Option::None => false,
    }
}

/// Evidence that `after` is `before` with some valid draw history replayed.
pub open spec fn run_evidence<O: Objective>(
    o: O,
    dir: Direction,
    c: Coefficients,
    before: ParticleSwarm,
    after: ParticleSwarm,
    hist: Seq<StepDraws>,
) -> bool {
    &&& (forall|t: int| 0 <= t < hist.len() ==> draws_valid(hist[t], before@.position.len()))
    &&& after@ == run_from(o, dir, c, before@, hist)
}

/// Fixed-iteration termination: applies `step` exactly `count` times, or
/// stops at the first step whose scalars leave the representable range, in
/// which case the swarm keeps the state reached so far and the failing
/// step's witness is carried out: some admissible draws overflow the next
/// step from that state.  On a swarm no draw can overflow, success is
/// therefore forced.
pub fn run_iterations<O: Objective>(
    swarm: &mut ParticleSwarm,
    c: &Coefficients,
    o: &O,
    dir: Direction,
    rng: &mut RandomSource,
    count: usize,
) -> (result: Result<(), SwarmError>)
    requires
        old(swarm).wf(*o, dir),
        c.valid(),
    ensures
        final(swarm).wf(*o, dir),
        match result {
            Result::Ok(_) => exists|hist: Seq<StepDraws>|
                run_evidence(*o, dir, *c, *old(swarm), *final(swarm), hist) && hist.len()
                    == count,
            Result::Err(e) => e == SwarmError::ValueOutOfRange && step_can_fail(
                *o,
                dir,
                *c,
                *final(swarm),
            ) && exists|hist: Seq<StepDraws>|
                run_evidence(*o, dir, *c, *old(swarm), *final(swarm), hist) && hist.len()
                    < count,
        },
{
    let ghost n0 = old(swarm)@.position.len();
    let mut it: usize = 0;
    proof {
        assert(run_evidence(*o, dir, *c, *old(swarm), *swarm, Seq::<StepDraws>::empty()));
    }
    while it < count
        invariant
            swarm.wf(*o, dir),
            c.valid(),
            0 <= it <= count,
            n0 == old(swarm)@.position.len(),
            swarm@.position.len() == n0,
            exists|hist: Seq<StepDraws>|
                run_evidence(*o, dir, *c, *old(swarm), *swarm, hist) && hist.len() == it,
        decreases count - it,
    {
        let ghost before_step = *swarm;
        let r = swarm.step(c, o, dir, rng);
        proof {
            let (r1s, r2s) = choose|r1s: Seq<int>, r2s: Seq<int>|
                step_outcome(*o, dir, *c, before_step, *swarm, r, r1s, r2s);
            let hist0 = choose|hist: Seq<StepDraws>|
                run_evidence(*o, dir, *c, *old(swarm), before_step, hist) && hist.len() == it;
            if r is Ok {
                let d = StepDraws { r1: r1s, r2: r2s };
                lemma_run_from_snoc(*o, dir, *c, old(swarm)@, hist0, d);
                assert(draws_valid(d, n0));
                assert(forall|t: int|
                    0 <= t < hist0.len() ==> hist0.push(d)[t] == hist0[t]);
                assert(hist0.push(d)[hist0.len() as int] == d);
                assert(run_evidence(*o, dir, *c, *old(swarm), *swarm, hist0.push(d))
                    && hist0.push(d).len() == it + 1);
            } else {
                assert(*swarm == before_step);
                assert(!step_fits(*o, dir, *c, swarm@, r1s, r2s));
                assert(r1s.len() == swarm@.position.len());
                assert(r2s.len() == swarm@.position.len());
                assert(step_can_fail(*o, dir, *c, *swarm));
                assert(run_evidence(*o, dir, *c, *old(swarm), *swarm, hist0) && hist0.len()
                    == it);
            }
        }
        if let Result::Err(e) = r {
            return Result::Err(e);
        }
        it += 1;
    }
    Result::Ok(())
}

/// Whether a view's global best meets the error threshold: when minimizing
/// its objective value must be at or below the threshold, when maximizing
/// at or above it — the comparison inverts with the direction.
pub open spec fn met_by<O: Objective>(o: O, dir: Direction, v: SwarmView, threshold: int) -> bool {
    match v.global_best {
        Option::Some(g) => match dir {
            Direction::Minimize => o.value(g) <= threshold,
            Direction::Maximize => o.value(g) >= threshold,
        },
        Option::None => false,
    }
}

/// Error-threshold termination: steps until the global best meets the
/// threshold, guarded by an explicit iteration cap against
/// non-convergence.  Returns the number of steps taken when the threshold
/// is met; `NoConvergence` only when the cap was actually exhausted with
/// the threshold still unmet; `ValueOutOfRange` only when the reached
/// state's global best left the objective's domain or some admissible
/// draws overflow the next step from it, the swarm keeping the state
/// reached so far.  On a swarm whose global best already meets the
/// threshold, success is therefore forced.
pub fn run_threshold<O: Objective>(
    swarm: &mut ParticleSwarm,
    c: &Coefficients,
    o: &O,
    dir: Direction,
    rng: &mut RandomSource,
    threshold: i64,
    max_iterations: usize,
) -> (result: Result<usize, SwarmError>)
    requires
        old(swarm).wf(*o, dir),
        c.valid(),
    ensures
        final(swarm).wf(*o, dir),
        match result {
            Result::Ok(k) => k <= max_iterations && met_by(*o, dir, final(swarm)@, threshold as int)
                && exists|hist: Seq<StepDraws>|
                    run_evidence(*o, dir, *c, *old(swarm), *final(swarm), hist) && hist.len()
                        == k,
            Result::Err(SwarmError::NoConvergence) => !met_by(
                *o,
                dir,
                final(swarm)@,
                threshold as int,
            ) && exists|hist: Seq<StepDraws>|
                run_evidence(*o, dir, *c, *old(swarm), *final(swarm), hist) && hist.len()
                    == max_iterations,
            Result::Err(SwarmError::ValueOutOfRange) => (!best_in_domain(*o, final(swarm)@)
                || step_can_fail(*o, dir, *c, *final(swarm))) && exists|hist: Seq<StepDraws>|
                run_evidence(*o, dir, *c, *old(swarm), *final(swarm), hist) && hist.len()
                    <= max_iterations,
            _ => false,
        },
{
    let ghost n0 = old(swarm)@.position.len();
    let mut it: usize = 0;
    proof {
        assert(run_evidence(*o, dir, *c, *old(swarm), *swarm, Seq::<StepDraws>::empty()));
    }
    while it < max_iterations
        invariant
            swarm.wf(*o, dir),
            c.valid(),
            0 <= it <= max_iterations,
            n0 == old(swarm)@.position.len(),
            swarm@.position.len() == n0,
            exists|hist: Seq<StepDraws>|
                run_evidence(*o, dir, *c, *old(swarm), *swarm, hist) && hist.len() == it,
        decreases max_iterations - it,
    {
        let gb = swarm.global_best();
        let g = match gb {
            Option::Some(g) => g,
            Option::None => {
                proof {
                    assert(false);
                }
                return Result::Err(SwarmError::ValueOutOfRange);
            },
        };
        if !o.check_domain(g) {
            proof {
                assert(!best_in_domain(*o, swarm@));
            }
            return Result::Err(SwarmError::ValueOutOfRange);
        }
        let fg = o.eval(g);
        let met = match dir {
            Direction::Minimize => fg <= threshold,
            Direction::Maximize => fg >= threshold,
        };
        if met {
            return Result::Ok(it);
        }
        let ghost before_step = *swarm;
        let r = swarm.step(c, o, dir, rng);
        proof {
            let (r1s, r2s) = choose|r1s: Seq<int>, r2s: Seq<int>|
                step_outcome(*o, dir, *c, before_step, *swarm, r, r1s, r2s);
            let hist0 = choose|hist: Seq<StepDraws>|
                run_evidence(*o, dir, *c, *old(swarm), before_step, hist) && hist.len() == it;
            if r is Ok {
                let d = StepDraws { r1: r1s, r2: r2s };
                lemma_run_from_snoc(*o, dir, *c, old(swarm)@, hist0, d);
                assert(draws_valid(d, n0));
                assert(forall|t: int|
                    0 <= t < hist0.len() ==> hist0.push(d)[t] == hist0[t]);
                assert(hist0.push(d)[hist0.len() as int] == d);
                assert(run_evidence(*o, dir, *c, *old(swarm), *swarm, hist0.push(d))
                    && hist0.push(d).len() == it + 1);
            } else {
                assert(*swarm == before_step);
                assert(!step_fits(*o, dir, *c, swarm@, r1s, r2s));
                assert(r1s.len() == swarm@.position.len());
                assert(r2s.len() == swarm@.position.len());
                assert(step_can_fail(*o, dir, *c, *swarm));
                assert(run_evidence(*o, dir, *c, *old(swarm), *swarm, hist0) && hist0.len()
                    == it);
            }
        }
        if let Result::Err(e) = r {
            return Result::Err(e);
        }
        it += 1;
    }
    let gb = swarm.global_best();
    let g = match gb {
        Option::Some(g) => g,
        Option::None => {
            proof {
                assert(false);
            }
            return Result::Err(SwarmError::ValueOutOfRange);
        },
    };
    if !o.check_domain(g) {
        proof {
            assert(!best_in_domain(*o, swarm@));
        }
        return Result::Err(SwarmError::ValueOutOfRange);
    }
    let fg = o.eval(g);
    let met = match dir {
        Direction::Minimize => fg <= threshold,
        Direction::Maximize => fg >= threshold,
    };
    if met {
        Result::Ok(max_iterations)
    } else {
        Result::Err(SwarmError::NoConvergence)
    }
}

} // verus!
