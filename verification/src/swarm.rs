//! The swarm state: the four parallel components, their invariants, and
//! construction.

use vstd::prelude::*;
use crate::engine::{
    improved_bests, moved_positions, next_velocity, step_fits, step_fits_at, step_outcome,
    stepped, Coefficients,
};
use crate::objective::Objective;
use crate::random::RandomSource;
use crate::scalar::{attraction_term, unit_draw};

verus! {

/// Whether "best" means the least or the greatest objective value; fixed for
/// the lifetime of a run and threaded through every comparison.
#[derive(Clone, Copy, Debug, PartialEq, Eq, Structural)]
pub enum Direction {
    Minimize,
    Maximize,
}

/// Every failure the swarm construction, the update engine and the driver
/// loops can report.
#[derive(Clone, Copy, Debug, PartialEq, Eq, Structural)]
pub enum SwarmError {
    /// Zero particles were requested: such a swarm would have no global best.
    EmptySwarm,
    /// An explicit position or velocity sequence does not have length `n`.
    DimensionMismatch,
    /// A scalar left the objective's domain or the representable `i64` range.
    ValueOutOfRange,
    /// The threshold loop reached its iteration cap without meeting the
    /// threshold.
    NoConvergence,
}

/// The mathematical contents of a vector of fixed-point scalars.
pub open spec fn to_ints(s: Seq<i64>) -> Seq<int> {
    s.map_values(|x: i64| x as int)
}

/// Whether scalar `a` is strictly better than `b` under `dir`: strictly
/// smaller objective value when minimizing, strictly greater when
/// maximizing.  Ties are never an improvement.
pub open spec fn strictly_better<O: Objective>(o: O, dir: Direction, a: int, b: int) -> bool {
    match dir {
        Direction::Minimize => o.value(a) < o.value(b),
        Direction::Maximize => o.value(a) > o.value(b),
    }
}

/// Whether scalar `a` is at least as good as `b` under `dir`.
pub open spec fn at_least_as_good<O: Objective>(o: O, dir: Direction, a: int, b: int) -> bool {
    !strictly_better(o, dir, b, a)
}

/// The direction-best scalar in `s`: the element with the best objective
/// value, the earliest such element winning every tie.
pub open spec fn best_in<O: Objective>(o: O, dir: Direction, s: Seq<int>) -> int
    recommends
        s.len() > 0,
    decreases s.len(),
{
    if s.len() <= 1 {
        s[0]
    } else {
        let prev = best_in(o, dir, s.drop_last());
        if strictly_better(o, dir, s.last(), prev) {
            s.last()
        } else {
            prev
        }
    }
}

/// The chosen best is an element of the sequence, no element beats it, and
/// it is the earliest element achieving its objective value: the tie-break
/// is deterministic, lowest index wins.
pub proof fn lemma_best_in_characterization<O: Objective>(o: O, dir: Direction, s: Seq<int>)
    requires
        s.len() > 0,
    ensures
        exists|j: int|
            0 <= j < s.len() && s[j] == best_in(o, dir, s) && (forall|k: int|
                0 <= k < j ==> o.value(s[k]) != o.value(best_in(o, dir, s))),
        forall|k: int| 0 <= k < s.len() ==> at_least_as_good(o, dir, best_in(o, dir, s), s[k]),
    decreases s.len(),
{
    let b = best_in(o, dir, s);
    if s.len() == 1 {
        assert(s[0] == b && (forall|k: int| 0 <= k < 0 ==> o.value(s[k]) != o.value(b)));
    } else {
        let t = s.drop_last();
        lemma_best_in_characterization(o, dir, t);
        let prev = best_in(o, dir, t);
        assert(forall|k: int| 0 <= k < t.len() ==> t[k] == s[k]);
        if strictly_better(o, dir, s.last(), prev) {
            let j = s.len() - 1;
            assert(forall|k: int| 0 <= k < j ==> at_least_as_good(o, dir, prev, s[k]));
            assert(forall|k: int| 0 <= k < j ==> o.value(s[k]) != o.value(b));
            assert(s[j] == b && (forall|k: int| 0 <= k < j ==> o.value(s[k]) != o.value(b)));
        } else {
            let j = choose|j: int|
                0 <= j < t.len() && t[j] == prev && (forall|k: int|
                    0 <= k < j ==> o.value(t[k]) != o.value(prev));
            assert(s[j] == b && (forall|k: int| 0 <= k < j ==> o.value(s[k]) != o.value(b)));
        }
    }
}

/// The mathematical view of a swarm: four parallel components over
/// unbounded integers.
#[verifier::ext_equal]
pub ghost struct SwarmView {
    pub position: Seq<int>,
    pub velocity: Seq<int>,
    pub personal_best: Seq<int>,
    pub global_best: Option<int>,
}

/// The swarm: one scalar candidate solution per particle, mutated in place
/// by the update engine.
pub struct ParticleSwarm {
    position: Vec<i64>,
    velocity: Vec<i64>,
    personal_best: Vec<i64>,
    global_best: Option<i64>,
}

impl View for ParticleSwarm {
    type V = SwarmView;

    closed spec fn view(&self) -> SwarmView {
        SwarmView {
            position: to_ints(self.position@),
            velocity: to_ints(self.velocity@),
            personal_best: to_ints(self.personal_best@),
            global_best: match self.global_best {
                Option::Some(g) => Option::Some(g as int),
                Option::None => Option::None,
            },
        }
    }
}

impl ParticleSwarm {
    /// Well-formedness: the three sequences are parallel and non-empty, and
    /// the global best is set and equals the direction-best of the current
    /// personal bests — recomputing it independently gives the same value.
    pub open spec fn wf<O: Objective>(&self, o: O, dir: Direction) -> bool {
        &&& self@.position.len() > 0
        &&& self@.velocity.len() == self@.position.len()
        &&& self@.personal_best.len() == self@.position.len()
        &&& self@.global_best == Option::<int>::Some(best_in(o, dir, self@.personal_best))
    }

    /// Number of particles.
    pub fn len(&self) -> (n: usize)
        ensures
            n == self@.position.len(),
    {
        self.position.len()
    }

    /// The current positions.
    pub fn positions(&self) -> (v: &Vec<i64>)
        ensures
            to_ints(v@) == self@.position,
    {
        &self.position
    }

    /// The current velocities.
    pub fn velocities(&self) -> (v: &Vec<i64>)
        ensures
            to_ints(v@) == self@.velocity,
    {
        &self.velocity
    }

    /// The current personal bests.
    pub fn personal_bests(&self) -> (v: &Vec<i64>)
        ensures
            to_ints(v@) == self@.personal_best,
    {
        &self.personal_best
    }

    /// The current global best, if one has been computed.
    pub fn global_best(&self) -> (g: Option<i64>)
        ensures
            match g {
                Option::Some(x) => self@.global_best == Option::<int>::Some(x as int),
                Option::None => self@.global_best is None,
            },
    {
        self.global_best
    }
}

/// The direction-best element of a non-empty vector of scalars, computed by
/// a full scan; the earliest element with the best objective value wins.
pub fn direction_best<O: Objective>(o: &O, dir: Direction, values: &Vec<i64>) -> (best: i64)
    requires
        values@.len() > 0,
        forall|i: int| 0 <= i < values@.len() ==> o.in_domain(values@[i] as int),
    ensures
        best as int == best_in(*o, dir, to_ints(values@)),
        o.in_domain(best as int),
{
    let ghost s = to_ints(values@);
    let mut best: i64 = values[0];
    let mut best_val: i64 = o.eval(best);
    let mut i: usize = 1;
    while i < values.len()
        invariant
            1 <= i <= values@.len(),
            s == to_ints(values@),
            s.len() == values@.len(),
            forall|k: int| 0 <= k < values@.len() ==> o.in_domain(values@[k] as int),
            o.in_domain(best as int),
            best as int == best_in(*o, dir, s.take(i as int)),
            best_val as int == o.value(best as int),
        decreases values@.len() - i,
    {
        let v = values[i];
        let fv = o.eval(v);
        let improved = match dir {
            Direction::Minimize => fv < best_val,
            Direction::Maximize => fv > best_val,
        };
        proof {
            assert(s.take(i as int + 1).drop_last() =~= s.take(i as int));
            assert(s.take(i as int + 1).last() == s[i as int]);
            assert(s[i as int] == values@[i as int] as int);
        }
        if improved {
            best = v;
            best_val = fv;
        }
        i += 1;
    }
    proof {
        assert(s.take(values@.len() as int) =~= s);
    }
    best
}

impl ParticleSwarm {
    /// Explicit construction: the given positions and velocities must both
    /// have length `n`; the personal bests start as a copy of the positions
    /// and the global best is the direction-best of those positions.
    ///
    /// A swarm of zero particles is refused with `EmptySwarm` (checked
    /// before the dimensions), mismatched dimensions with
    /// `DimensionMismatch`, and a position outside the objective's domain
    /// with `ValueOutOfRange`.
    pub fn new<O: Objective>(
        n: usize,
        position: Vec<i64>,
        velocity: Vec<i64>,
        o: &O,
        dir: Direction,
    ) -> (result: Result<ParticleSwarm, SwarmError>)
        ensures
            match result {
                Result::Ok(s) => {
                    &&& n > 0
                    &&& position@.len() == n
                    &&& velocity@.len() == n
                    &&& forall|i: int| 0 <= i < n ==> o.in_domain(position@[i] as int)
                    &&& s@.position == to_ints(position@)
                    &&& s@.velocity == to_ints(velocity@)
                    &&& s@.personal_best == to_ints(position@)
                    &&& s.wf(*o, dir)
                },
                Result::Err(SwarmError::EmptySwarm) => n == 0,
                Result::Err(SwarmError::DimensionMismatch) => n > 0 && (position@.len() != n
                    || velocity@.len() != n),
                Result::Err(SwarmError::ValueOutOfRange) => n > 0 && position@.len() == n
                    && velocity@.len() == n && exists|i: int|
                    0 <= i < n && !o.in_domain(position@[i] as int),
                Result::Err(SwarmError::NoConvergence) => false,
            },
    {
        if n == 0 {
            return Result::Err(SwarmError::EmptySwarm);
        }
        if position.len() != n || velocity.len() != n {
            return Result::Err(SwarmError::DimensionMismatch);
        }
        let mut personal_best: Vec<i64> = Vec::new();
        let mut i: usize = 0;
        while i < n
            invariant
                0 <= i <= n,
                position@.len() == n,
                velocity@.len() == n,
                personal_best@ =~= position@.take(i as int),
                forall|k: int| 0 <= k < i ==> o.in_domain(position@[k] as int),
            decreases n - i,
        {
            let x = position[i];
            if !o.check_domain(x) {
                proof {
                    assert(!o.in_domain(position@[i as int] as int));
                    assert(exists|k: int| 0 <= k < n && !o.in_domain(position@[k] as int));
                }
                return Result::Err(SwarmError::ValueOutOfRange);
            }
            personal_best.push(x);
            i += 1;
        }
        proof {
            assert(position@.take(n as int) =~= position@);
        }
        let gb = direction_best(o, dir, &personal_best);
        proof {
            assert(to_ints(personal_best@) =~= to_ints(position@));
        }
        Result::Ok(
            ParticleSwarm {
                position,
                velocity,
                personal_best,
                global_best: Option::Some(gb),
            },
        )
    }

    /// One optimization step with the random draws given explicitly:
    /// `r1s[i]` and `r2s[i]` are the two unit-interval draws of particle
    /// `i`.  The step is a pure function of the swarm, the coefficients and
    /// the draws.  If any computed scalar would leave the representable
    /// range or the objective's domain, the swarm is left unchanged and
    /// `ValueOutOfRange` is reported; the step succeeds if and only if every
    /// computed scalar stays representable.
    pub fn step_with_draws<O: Objective>(
        &mut self,
        c: &Coefficients,
        o: &O,
        dir: Direction,
        r1s: &Vec<i64>,
        r2s: &Vec<i64>,
    ) -> (result: Result<(), SwarmError>)
        requires
            old(self).wf(*o, dir),
            c.valid(),
            r1s@.len() == old(self)@.position.len(),
            r2s@.len() == old(self)@.position.len(),
            forall|i: int| 0 <= i < r1s@.len() ==> unit_draw(r1s@[i] as int),
            forall|i: int| 0 <= i < r2s@.len() ==> unit_draw(r2s@[i] as int),
        ensures
            match result {
                Result::Ok(_) => step_fits(*o, dir, *c, old(self)@, to_ints(r1s@), to_ints(r2s@))
                    && final(self)@ == stepped(*o, dir, *c, old(self)@, to_ints(r1s@), to_ints(r2s@))
                    && final(self).wf(*o, dir),
                Result::Err(e) => e == SwarmError::ValueOutOfRange && *final(self) == *old(self)
                    && !step_fits(*o, dir, *c, old(self)@, to_ints(r1s@), to_ints(r2s@)),
            },
    {
        let ghost v0 = old(self)@;
        let ghost gr1 = to_ints(r1s@);
        let ghost gr2 = to_ints(r2s@);
        let ghost pos2s = moved_positions(v0);
        let ghost pb2s = improved_bests(*o, dir, pos2s, v0.personal_best);
        let n = self.position.len();

        // Sub-step 1: move every particle by its current velocity.
        let mut pos2: Vec<i64> = Vec::new();
        let mut i: usize = 0;
        while i < n
            invariant
                *self == *old(self),
                v0 == old(self)@,
                gr1 == to_ints(r1s@),
                gr2 == to_ints(r2s@),
                pos2s == moved_positions(v0),
                old(self).wf(*o, dir),
                n == v0.position.len(),
                n == self.position@.len(),
                n == self.velocity@.len(),
                0 <= i <= n,
                pos2@.len() == i,
                forall|k: int| 0 <= k < i ==> pos2@[k] as int == pos2s[k],
            decreases n - i,
        {
            let sum: i128 = self.position[i] as i128 + self.velocity[i] as i128;
            proof {
                assert(pos2s[i as int] == self.position@[i as int] as int
                    + self.velocity@[i as int] as int);
            }
            if sum > i64::MAX as i128 || sum < i64::MIN as i128 {
                proof {
                    assert(!step_fits_at(*o, dir, *c, v0, gr1, gr2, i as int));
                }
                return Result::Err(SwarmError::ValueOutOfRange);
            }
            pos2.push(sum as i64);
            i += 1;
        }

        // Sub-step 2: absorb strict improvements into the personal bests.
        let mut pb2: Vec<i64> = Vec::new();
        i = 0;
        while i < n
            invariant
                *self == *old(self),
                v0 == old(self)@,
                gr1 == to_ints(r1s@),
                gr2 == to_ints(r2s@),
                pos2s == moved_positions(v0),
                pb2s == improved_bests(*o, dir, pos2s, v0.personal_best),
                old(self).wf(*o, dir),
                n == v0.position.len(),
                n == self.personal_best@.len(),
                pos2@.len() == n,
                forall|k: int| 0 <= k < n ==> pos2@[k] as int == pos2s[k],
                0 <= i <= n,
                pb2@.len() == i,
                forall|k: int| 0 <= k < i ==> pb2@[k] as int == pb2s[k],
                forall|k: int|
                    0 <= k < i ==> o.in_domain(pos2s[k]) && o.in_domain(v0.personal_best[k]),
            decreases n - i,
        {
            let xp = pos2[i];
            let xb = self.personal_best[i];
            proof {
                assert(v0.personal_best[i as int] == self.personal_best@[i as int] as int);
            }
            if !o.check_domain(xp) {
                proof {
                    assert(!step_fits_at(*o, dir, *c, v0, gr1, gr2, i as int));
                }
                return Result::Err(SwarmError::ValueOutOfRange);
            }
            if !o.check_domain(xb) {
                proof {
                    assert(!step_fits_at(*o, dir, *c, v0, gr1, gr2, i as int));
                }
                return Result::Err(SwarmError::ValueOutOfRange);
            }
            let fp = o.eval(xp);
            let fb = o.eval(xb);
            let better_now = match dir {
                Direction::Minimize => fp < fb,
                Direction::Maximize => fp > fb,
            };
            if better_now {
                pb2.push(xp);
            } else {
                pb2.push(xb);
            }
            i += 1;
        }

        // Sub-step 3: recompute the global best by a full scan.
        proof {
            assert forall|k: int| 0 <= k < pb2@.len() implies o.in_domain(pb2@[k] as int) by {
                assert(pb2@[k] as int == pb2s[k]);
            }
        }
        let gb = direction_best(o, dir, &pb2);
        proof {
            assert(to_ints(pb2@) =~= pb2s);
        }

        // Sub-step 4: update the velocities from the moved positions and
        // the fresh global best.
        let mut vel2: Vec<i64> = Vec::new();
        i = 0;
        while i < n
            invariant
                *self == *old(self),
                v0 == old(self)@,
                gr1 == to_ints(r1s@),
                gr2 == to_ints(r2s@),
                pos2s == moved_positions(v0),
                pb2s == improved_bests(*o, dir, pos2s, v0.personal_best),
                old(self).wf(*o, dir),
                c.valid(),
                n == v0.position.len(),
                n == self.velocity@.len(),
                n == r1s@.len(),
                n == r2s@.len(),
                forall|k: int|
                    0 <= k < n ==> unit_draw(r1s@[k] as int) && unit_draw(r2s@[k] as int),
                pos2@.len() == n,
                forall|k: int| 0 <= k < n ==> pos2@[k] as int == pos2s[k],
                pb2@.len() == n,
                forall|k: int| 0 <= k < n ==> pb2@[k] as int == pb2s[k],
                forall|k: int|
                    0 <= k < n ==> o.in_domain(pos2s[k]) && o.in_domain(v0.personal_best[k]),
                gb as int == best_in(*o, dir, pb2s),
                0 <= i <= n,
                vel2@.len() == i,
                forall|k: int|
                    0 <= k < i ==> vel2@[k] as int == next_velocity(
                        *c,
                        v0.velocity[k],
                        pos2s[k],
                        pb2s[k],
                        best_in(*o, dir, pb2s),
                        gr1[k],
                        gr2[k],
                    ),
            decreases n - i,
        {
            let d1: i128 = pb2[i] as i128 - pos2[i] as i128;
            let d2: i128 = gb as i128 - pos2[i] as i128;
            let t1 = attraction_term(c.cognitive, r1s[i], d1);
            let t2 = attraction_term(c.social, r2s[i], d2);
            let sum: i128 = self.velocity[i] as i128 + t1 + t2;
            proof {
                assert(gr1[i as int] == r1s@[i as int] as int);
                assert(gr2[i as int] == r2s@[i as int] as int);
                assert(v0.velocity[i as int] == self.velocity@[i as int] as int);
                assert(sum as int == next_velocity(
                    *c,
                    v0.velocity[i as int],
                    pos2s[i as int],
                    pb2s[i as int],
                    best_in(*o, dir, pb2s),
                    gr1[i as int],
                    gr2[i as int],
                ));
                assert(stepped(*o, dir, *c, v0, gr1, gr2).velocity[i as int] == sum as int);
            }
            if sum > i64::MAX as i128 || sum < i64::MIN as i128 {
                proof {
                    assert(!step_fits_at(*o, dir, *c, v0, gr1, gr2, i as int));
                }
                return Result::Err(SwarmError::ValueOutOfRange);
            }
            vel2.push(sum as i64);
            i += 1;
        }

        // Commit: the four components change together.
        let ghost fpos2 = pos2@;
        let ghost fpb2 = pb2@;
        let ghost fvel2 = vel2@;
        self.position = pos2;
        self.velocity = vel2;
        self.personal_best = pb2;
        self.global_best = Option::Some(gb);
        proof {
            let w = stepped(*o, dir, *c, v0, gr1, gr2);
            assert(self@.position =~= w.position);
            assert(self@.personal_best =~= w.personal_best);
            assert(self@.velocity =~= w.velocity);
            assert(self@ =~= w);
            assert forall|k: int| 0 <= k < v0.position.len() implies step_fits_at(
                *o,
                dir,
                *c,
                v0,
                gr1,
                gr2,
                k,
            ) by {
                assert(fpos2[k] as int == pos2s[k]);
                assert(fvel2[k] as int == w.velocity[k]);
            }
            assert(self.wf(*o, dir));
        }
        Result::Ok(())
    }

    /// One optimization step with the shared random source: the two draws
    /// of each particle are taken from `rng` in particle order, first the
    /// cognitive draw, then the social one.  Whatever the source produced,
    /// the call relates the new swarm to the old one exactly as
    /// `step_with_draws` does for those draws.
    pub fn step<O: Objective>(
        &mut self,
        c: &Coefficients,
        o: &O,
        dir: Direction,
        rng: &mut RandomSource,
    ) -> (result: Result<(), SwarmError>)
        requires
            old(self).wf(*o, dir),
            c.valid(),
        ensures
            exists|r1s: Seq<int>, r2s: Seq<int>|
                step_outcome(*o, dir, *c, *old(self), *final(self), result, r1s, r2s),
    {
        let n = self.position.len();
        let mut r1s: Vec<i64> = Vec::new();
        let mut r2s: Vec<i64> = Vec::new();
        let mut i: usize = 0;
        while i < n
            invariant
                *self == *old(self),
                0 <= i <= n,
                r1s@.len() == i,
                r2s@.len() == i,
                forall|k: int| 0 <= k < i ==> unit_draw(r1s@[k] as int),
                forall|k: int| 0 <= k < i ==> unit_draw(r2s@[k] as int),
            decreases n - i,
        {
            let a = rng.next_unit();
            let b = rng.next_unit();
            r1s.push(a);
            r2s.push(b);
            i += 1;
        }
        let result = self.step_with_draws(c, o, dir, &r1s, &r2s);
        proof {
            assert forall|k: int| 0 <= k < to_ints(r1s@).len() implies unit_draw(
                to_ints(r1s@)[k],
            ) by {
                assert(to_ints(r1s@)[k] == r1s@[k] as int);
            }
            assert forall|k: int| 0 <= k < to_ints(r2s@).len() implies unit_draw(
                to_ints(r2s@)[k],
            ) by {
                assert(to_ints(r2s@)[k] == r2s@[k] as int);
            }
            assert(step_outcome(
                *o,
                dir,
                *c,
                *old(self),
                *self,
                result,
                to_ints(r1s@),
                to_ints(r2s@),
            ));
        }
        result
    }

    /// Randomized construction: position and velocity of every particle are
    /// drawn independently and uniformly from the unit interval `[0, 1)`,
    /// the personal bests start as a copy of the positions, and the global
    /// best is the direction-best of those positions.  Zero particles are
    /// refused with `EmptySwarm`; a drawn position outside the objective's
    /// domain is refused with `ValueOutOfRange`, so when the whole unit
    /// interval lies in the domain a non-empty swarm is always built.
    pub fn new_random<O: Objective>(
        n: usize,
        o: &O,
        dir: Direction,
        rng: &mut RandomSource,
    ) -> (result: Result<ParticleSwarm, SwarmError>)
        ensures
            match result {
                Result::Ok(s) => {
                    &&& n > 0
                    &&& s@.position.len() == n
                    &&& s@.velocity.len() == n
                    &&& s@.personal_best == s@.position
                    &&& (forall|i: int|
                        0 <= i < n ==> unit_draw(s@.position[i]) && unit_draw(s@.velocity[i]))
                    &&& s.wf(*o, dir)
                },
                Result::Err(SwarmError::EmptySwarm) => n == 0,
                Result::Err(SwarmError::ValueOutOfRange) => n > 0 && (exists|x: int|
                    unit_draw(x) && !o.in_domain(x)),
                _ => false,
            },
            n > 0 && (forall|x: int| unit_draw(x) ==> o.in_domain(x)) ==> result is Ok,
    {
        if n == 0 {
            return Result::Err(SwarmError::EmptySwarm);
        }
        let mut position: Vec<i64> = Vec::new();
        let mut velocity: Vec<i64> = Vec::new();
        let mut i: usize = 0;
        while i < n
            invariant
                0 <= i <= n,
                position@.len() == i,
                velocity@.len() == i,
                forall|k: int|
                    0 <= k < i ==> unit_draw(position@[k] as int) && unit_draw(
                        velocity@[k] as int,
                    ),
                forall|k: int| 0 <= k < i ==> o.in_domain(position@[k] as int),
            decreases n - i,
        {
            let x = rng.next_unit();
            let v = rng.next_unit();
            if !o.check_domain(x) {
                proof {
                    assert(unit_draw(x as int) && !o.in_domain(x as int));
                }
                return Result::Err(SwarmError::ValueOutOfRange);
            }
            position.push(x);
            velocity.push(v);
            i += 1;
        }
        let ghost gpos = position@;
        let ghost gvel = velocity@;
        match ParticleSwarm::new(n, position, velocity, o, dir) {
            Result::Ok(s) => {
                proof {
                    assert forall|k: int| 0 <= k < n implies unit_draw(s@.position[k])
                        && unit_draw(s@.velocity[k]) by {
                        assert(s@.position[k] == gpos[k] as int);
                        assert(s@.velocity[k] == gvel[k] as int);
                    }
                }
                Result::Ok(s)
            },
            Result::Err(e) => Result::Err(e),
        }
    }
}

} // verus!
