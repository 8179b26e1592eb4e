use pso::options::{parse, parse_scalar, parse_u64, ParseError, RunOptions};

fn args(xs: &[&str]) -> Vec<Vec<u8>> {
    xs.iter().map(|s| s.as_bytes().to_vec()).collect()
}

fn ok(xs: &[&str]) -> RunOptions {
    parse(&args(xs)).unwrap()
}

#[test]
fn a_particle_count_alone_suffices() {
    let o = ok(&["prog", "-n", "3"]);
    assert_eq!(o.n, 3);
    assert_eq!(o.iterations, None);
    assert_eq!(o.threshold, 100);
    assert!(!o.verbose);
    assert_eq!(o.seed, None);
    assert!(o.init.is_none());
    assert!(o.vinit.is_none());
}

#[test]
fn the_particle_count_is_required() {
    match parse(&args(&["prog"])) {
        Err(ParseError::MissingArgument(b)) => assert_eq!(b, b"-n".to_vec()),
        other => panic!("expected a missing -n, got {:?}", other),
    }
}

#[test]
fn a_flag_without_its_value_is_missing() {
    assert!(matches!(
        parse(&args(&["prog", "-n"])),
        Err(ParseError::MissingArgument(_))
    ));
    assert!(matches!(
        parse(&args(&["prog", "-n", "2", "--seed"])),
        Err(ParseError::MissingArgument(_))
    ));
}

#[test]
fn a_bad_particle_count_is_reported() {
    match parse(&args(&["prog", "-n", "abc"])) {
        Err(ParseError::InvalidParticleNumber(b)) => assert_eq!(b, b"abc".to_vec()),
        other => panic!("expected an invalid count, got {:?}", other),
    }
}

#[test]
fn iterations_and_verbosity_are_read() {
    let o = ok(&["prog", "-n", "2", "-i", "10", "-v"]);
    assert_eq!(o.n, 2);
    assert_eq!(o.iterations, Some(10));
    assert!(o.verbose);
}

#[test]
fn a_bad_iteration_count_is_reported() {
    assert!(matches!(
        parse(&args(&["prog", "-n", "2", "-i", "ten"])),
        Err(ParseError::InvalidIterations(_))
    ));
}

#[test]
fn the_threshold_is_read_in_fixed_point() {
    assert_eq!(ok(&["prog", "-n", "2", "-e", "0.25"]).threshold, 250_000);
    assert_eq!(ok(&["prog", "-n", "2", "-e", "0.0001"]).threshold, 100);
    assert_eq!(ok(&["prog", "-n", "2", "-e", "3"]).threshold, 3_000_000);
}

#[test]
fn a_bad_threshold_is_reported() {
    match parse(&args(&["prog", "-n", "2", "-e", "wide"])) {
        Err(ParseError::InvalidThreshold(b)) => assert_eq!(b, b"wide".to_vec()),
        other => panic!("expected an invalid threshold, got {:?}", other),
    }
}

#[test]
fn the_threshold_must_be_positive() {
    match parse(&args(&["prog", "-n", "2", "-e", "-0.5"])) {
        Err(ParseError::InvalidThreshold(b)) => assert_eq!(b, b"-0.5".to_vec()),
        other => panic!("expected an invalid threshold, got {:?}", other),
    }
    match parse(&args(&["prog", "-n", "2", "-e", "0"])) {
        Err(ParseError::InvalidThreshold(b)) => assert_eq!(b, b"0".to_vec()),
        other => panic!("expected an invalid threshold, got {:?}", other),
    }
}

#[test]
fn the_seed_is_read() {
    assert_eq!(ok(&["prog", "-n", "2", "--seed", "7"]).seed, Some(7));
}

#[test]
fn a_negative_seed_is_reported() {
    match parse(&args(&["prog", "-n", "2", "--seed", "-1"])) {
        Err(ParseError::InvalidSeed(b)) => assert_eq!(b, b"-1".to_vec()),
        other => panic!("expected an invalid seed, got {:?}", other),
    }
}

#[test]
fn initial_positions_are_read_as_a_list() {
    let o = ok(&["prog", "-n", "2", "--init", "0.2,0.8"]);
    assert_eq!(o.init, Some(vec![200_000, 800_000]));
}

#[test]
fn initial_velocities_may_be_negative() {
    let o = ok(&["prog", "-n", "2", "--vinit", "-0.5,1"]);
    assert_eq!(o.vinit, Some(vec![-500_000, 1_000_000]));
}

#[test]
fn the_first_bad_list_entry_is_reported() {
    match parse(&args(&["prog", "-n", "2", "--init", "0.2,zz,3"])) {
        Err(ParseError::InvalidArgument(b)) => assert_eq!(b, b"zz".to_vec()),
        other => panic!("expected an invalid list entry, got {:?}", other),
    }
}

#[test]
fn an_unknown_flag_is_reported() {
    match parse(&args(&["prog", "-x"])) {
        Err(ParseError::InvalidArgument(b)) => assert_eq!(b, b"-x".to_vec()),
        other => panic!("expected an unknown flag, got {:?}", other),
    }
}

#[test]
fn a_later_flag_occurrence_wins() {
    let o = ok(&["prog", "-n", "2", "-n", "5"]);
    assert_eq!(o.n, 5);
}

#[test]
fn u64_numerals_saturate_nowhere() {
    assert_eq!(
        parse_u64(&b"18446744073709551615".to_vec()),
        Some(u64::MAX)
    );
    assert_eq!(parse_u64(&b"18446744073709551616".to_vec()), None);
    assert_eq!(parse_u64(&b"".to_vec()), None);
    assert_eq!(parse_u64(&b"12a".to_vec()), None);
}

#[test]
fn scalar_numerals_read_exactly() {
    assert_eq!(parse_scalar(&b"5".to_vec()), Some(5_000_000));
    assert_eq!(parse_scalar(&b"0.0001".to_vec()), Some(100));
    assert_eq!(parse_scalar(&b"-2.5".to_vec()), Some(-2_500_000));
    assert_eq!(parse_scalar(&b"1.234567".to_vec()), Some(1_234_567));
    assert_eq!(parse_scalar(&b"1.2345678".to_vec()), None);
    assert_eq!(parse_scalar(&b"1.".to_vec()), Some(1_000_000));
    assert_eq!(parse_scalar(&b".5".to_vec()), Some(500_000));
    assert_eq!(parse_scalar(&b"-.5".to_vec()), Some(-500_000));
    assert_eq!(parse_scalar(&b".".to_vec()), None);
    assert_eq!(parse_scalar(&b"-".to_vec()), None);
}
