use pso::driver::{run_iterations, run_threshold};
use pso::engine::Coefficients;
use pso::objective::{Objective, SquaredDistance};
use pso::random::RandomSource;
use pso::scalar::SCALE;
use pso::swarm::{direction_best, Direction, ParticleSwarm, SwarmError};

// The demonstration objective y = (x - 1)^2, in fixed-point units.
fn parabola() -> SquaredDistance {
    SquaredDistance { target: SCALE }
}

fn half_half() -> Coefficients {
    Coefficients::new(500_000, 500_000).unwrap()
}

#[test]
fn dimension_mismatch_is_refused() {
    let o = parabola();
    let r = ParticleSwarm::new(
        1,
        vec![5_000_000, 1_000_000],
        vec![0],
        &o,
        Direction::Minimize,
    );
    assert!(matches!(r, Err(SwarmError::DimensionMismatch)));
    let r = ParticleSwarm::new(2, vec![5_000_000, 1_000_000], vec![0], &o, Direction::Minimize);
    assert!(matches!(r, Err(SwarmError::DimensionMismatch)));
}

#[test]
fn empty_swarm_is_refused() {
    let o = parabola();
    let r = ParticleSwarm::new(0, vec![], vec![], &o, Direction::Minimize);
    assert!(matches!(r, Err(SwarmError::EmptySwarm)));
    let mut rng = RandomSource::from_seed(1);
    let r = ParticleSwarm::new_random(0, &o, Direction::Minimize, &mut rng);
    assert!(matches!(r, Err(SwarmError::EmptySwarm)));
}

#[test]
fn out_of_domain_position_is_refused() {
    let o = parabola();
    let r = ParticleSwarm::new(1, vec![4_000_000_000_000], vec![0], &o, Direction::Minimize);
    assert!(matches!(r, Err(SwarmError::ValueOutOfRange)));
}

#[test]
fn explicit_init_matches_direction_best() {
    let o = parabola();
    let s = ParticleSwarm::new(
        2,
        vec![200_000, 800_000],
        vec![0, 0],
        &o,
        Direction::Minimize,
    )
    .unwrap();
    let manual = direction_best(&o, Direction::Minimize, &vec![200_000, 800_000]);
    assert_eq!(s.global_best(), Some(manual));
    assert_eq!(s.global_best(), Some(800_000));
}

#[test]
fn maximize_picks_the_other_end() {
    let o = parabola();
    let s = ParticleSwarm::new(
        2,
        vec![200_000, 800_000],
        vec![0, 0],
        &o,
        Direction::Maximize,
    )
    .unwrap();
    assert_eq!(s.global_best(), Some(200_000));
}

#[test]
fn ties_resolve_to_the_lowest_index() {
    let o = parabola();
    // f(0) == f(2): both one real unit away from the target.
    assert_eq!(
        direction_best(&o, Direction::Minimize, &vec![0, 2_000_000]),
        0
    );
    assert_eq!(
        direction_best(&o, Direction::Minimize, &vec![2_000_000, 0]),
        2_000_000
    );
}

#[test]
fn zero_velocity_and_zero_draws_leave_the_swarm_still() {
    let o = parabola();
    let c = half_half();
    let mut s = ParticleSwarm::new(1, vec![5_000_000], vec![0], &o, Direction::Minimize).unwrap();
    let r = s.step_with_draws(&c, &o, Direction::Minimize, &vec![0], &vec![0]);
    assert!(r.is_ok());
    assert_eq!(s.positions(), &vec![5_000_000]);
    assert_eq!(s.velocities(), &vec![0]);
    assert_eq!(s.personal_bests(), &vec![5_000_000]);
    assert_eq!(s.global_best(), Some(5_000_000));
}

#[test]
fn one_step_follows_the_update_rule_exactly() {
    let o = parabola();
    let c = half_half();
    // Start at 5.0 moving by 1.0: the move worsens the objective, so the
    // bests stay at 5.0 and both attraction terms pull back by
    // 0.5 * 0.5 * (5.0 - 6.0) = -0.25 each.
    let mut s = ParticleSwarm::new(1, vec![5_000_000], vec![1_000_000], &o, Direction::Minimize)
        .unwrap();
    let r = s.step_with_draws(&c, &o, Direction::Minimize, &vec![500_000], &vec![500_000]);
    assert!(r.is_ok());
    assert_eq!(s.positions(), &vec![6_000_000]);
    assert_eq!(s.personal_bests(), &vec![5_000_000]);
    assert_eq!(s.global_best(), Some(5_000_000));
    assert_eq!(s.velocities(), &vec![1_000_000 - 250_000 - 250_000]);
}

#[test]
fn an_improving_move_updates_the_bests() {
    let o = parabola();
    let c = half_half();
    let mut s = ParticleSwarm::new(1, vec![0], vec![1_000_000], &o, Direction::Minimize).unwrap();
    let r = s.step_with_draws(&c, &o, Direction::Minimize, &vec![0], &vec![0]);
    assert!(r.is_ok());
    // The particle lands on the optimum: both bests absorb it.
    assert_eq!(s.positions(), &vec![1_000_000]);
    assert_eq!(s.personal_bests(), &vec![1_000_000]);
    assert_eq!(s.global_best(), Some(1_000_000));
}

#[test]
fn a_failing_step_leaves_the_swarm_unchanged() {
    let o = SquaredDistance { target: 0 };
    let c = half_half();
    // The move would land far outside the objective's domain.
    let mut s = ParticleSwarm::new(
        1,
        vec![3_000_000_000_000],
        vec![5_000_000_000_000],
        &o,
        Direction::Minimize,
    )
    .unwrap();
    let r = s.step_with_draws(&c, &o, Direction::Minimize, &vec![0], &vec![0]);
    assert!(matches!(r, Err(SwarmError::ValueOutOfRange)));
    assert_eq!(s.positions(), &vec![3_000_000_000_000]);
    assert_eq!(s.velocities(), &vec![5_000_000_000_000]);
}

#[test]
fn seeded_runs_are_bit_identical() {
    let o = parabola();
    let c = half_half();
    let mut rng1 = RandomSource::from_seed(42);
    let mut rng2 = RandomSource::from_seed(42);
    let mut s1 = ParticleSwarm::new_random(3, &o, Direction::Minimize, &mut rng1).unwrap();
    let mut s2 = ParticleSwarm::new_random(3, &o, Direction::Minimize, &mut rng2).unwrap();
    assert_eq!(s1.positions(), s2.positions());
    assert_eq!(s1.velocities(), s2.velocities());
    for _ in 0..5 {
        run_iterations(&mut s1, &c, &o, Direction::Minimize, &mut rng1, 1).unwrap();
        run_iterations(&mut s2, &c, &o, Direction::Minimize, &mut rng2, 1).unwrap();
        assert_eq!(s1.positions(), s2.positions());
        assert_eq!(s1.velocities(), s2.velocities());
        assert_eq!(s1.personal_bests(), s2.personal_bests());
        assert_eq!(s1.global_best(), s2.global_best());
    }
}

#[test]
fn global_best_always_matches_an_independent_rescan() {
    let o = parabola();
    let c = half_half();
    let mut rng = RandomSource::from_seed(7);
    let mut s = ParticleSwarm::new_random(4, &o, Direction::Minimize, &mut rng).unwrap();
    for _ in 0..20 {
        run_iterations(&mut s, &c, &o, Direction::Minimize, &mut rng, 1).unwrap();
        let manual = direction_best(&o, Direction::Minimize, s.personal_bests());
        assert_eq!(s.global_best(), Some(manual));
    }
}

#[test]
fn personal_bests_never_worsen_against_any_visited_position() {
    let o = parabola();
    let c = half_half();
    let mut rng = RandomSource::from_seed(11);
    let mut s = ParticleSwarm::new_random(3, &o, Direction::Minimize, &mut rng).unwrap();
    let mut seen: Vec<Vec<i64>> = vec![s.positions().clone()];
    for _ in 0..20 {
        run_iterations(&mut s, &c, &o, Direction::Minimize, &mut rng, 1).unwrap();
        seen.push(s.positions().clone());
    }
    for i in 0..3 {
        let best_f = o.eval(s.personal_bests()[i]);
        for past in &seen {
            assert!(best_f <= o.eval(past[i]));
        }
    }
}

#[test]
fn threshold_run_meets_the_threshold_or_reports_non_convergence() {
    let o = parabola();
    let c = half_half();
    let mut rng = RandomSource::from_seed(3);
    let mut s = ParticleSwarm::new_random(5, &o, Direction::Minimize, &mut rng).unwrap();
    let threshold: i64 = 100;  // 0.0001 in fixed-point units
    match run_threshold(&mut s, &c, &o, Direction::Minimize, &mut rng, threshold, 100_000) {
        Ok(k) => {
            assert!(k <= 100_000);
            let g = s.global_best().unwrap();
            assert!(o.eval(g) <= threshold);
        },
        Err(SwarmError::NoConvergence) => {
            let g = s.global_best().unwrap();
            assert!(o.eval(g) > threshold);
        },
        Err(e) => panic!("unexpected failure: {:?}", e),
    }
}

#[test]
fn fixed_iteration_run_performs_every_step() {
    let o = parabola();
    let c = half_half();
    let mut rng = RandomSource::from_seed(9);
    let mut s = ParticleSwarm::new_random(2, &o, Direction::Minimize, &mut rng).unwrap();
    assert!(run_iterations(&mut s, &c, &o, Direction::Minimize, &mut rng, 10).is_ok());
}

#[test]
fn coefficients_are_validated() {
    assert!(Coefficients::new(500_000, 500_000).is_ok());
    assert!(matches!(
        Coefficients::new(-1, 500_000),
        Err(SwarmError::ValueOutOfRange)
    ));
    assert!(matches!(
        Coefficients::new(0, 1_000_000_000_001),
        Err(SwarmError::ValueOutOfRange)
    ));
}

#[test]
fn random_draws_stay_in_the_unit_interval() {
    let mut rng = RandomSource::from_seed(5);
    let mut all_equal = true;
    let first = {
        let mut s = RandomSource::from_seed(5);
        s.next_unit()
    };
    for _ in 0..1000 {
        let d = rng.next_unit();
        assert!(0 <= d && d < SCALE);
        if d != first {
            all_equal = false;
        }
    }
    assert!(!all_equal);
}

#[test]
fn random_initialization_stays_in_the_unit_interval() {
    let o = parabola();
    let mut rng = RandomSource::from_seed(21);
    let s = ParticleSwarm::new_random(8, &o, Direction::Minimize, &mut rng).unwrap();
    assert_eq!(s.positions().len(), 8);
    assert_eq!(s.personal_bests(), s.positions());
    for i in 0..8 {
        assert!(0 <= s.positions()[i] && s.positions()[i] < SCALE);
        assert!(0 <= s.velocities()[i] && s.velocities()[i] < SCALE);
    }
}

#[test]
fn threshold_inverts_for_maximize() {
    let o = parabola();
    let c = half_half();
    let mut rng = RandomSource::from_seed(13);
    // f(5.0) = 16.0 is already at or above a threshold of 1.0 when
    // maximizing, so the loop stops before any step.
    let mut s = ParticleSwarm::new(1, vec![5_000_000], vec![0], &o, Direction::Maximize).unwrap();
    let r = run_threshold(&mut s, &c, &o, Direction::Maximize, &mut rng, 1_000_000, 10);
    assert_eq!(r, Ok(0));
    assert_eq!(s.positions(), &vec![5_000_000]);
}

#[test]
fn squared_distance_evaluates_exactly() {
    let o = parabola();
    // f(5.0) = 16.0, f(0.2) = 0.64, f(0.8) = 0.04
    assert_eq!(o.eval(5_000_000), 16_000_000);
    assert_eq!(o.eval(200_000), 640_000);
    assert_eq!(o.eval(800_000), 40_000);
    assert_eq!(o.eval(1_000_000), 0);
}
