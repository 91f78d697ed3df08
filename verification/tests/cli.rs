use rust_simulator::cli::{
    parse_args, parse_args_with_readings, CliError, FvMode, NumberReading, TradeMode,
};

fn run(args: &[&str]) -> Result<rust_simulator::cli::CliOptions, CliError> {
    let args: Vec<String> = args.iter().map(|s| s.to_string()).collect();
    let numbers: Vec<bool> = args.iter().map(|s| s.parse::<f64>().is_ok()).collect();
    parse_args(&args, &numbers)
}

#[test]
fn no_arguments_give_the_defaults() {
    let o = run(&[]).unwrap();
    assert_eq!(o.output_dir, "../tmp/rust_simulator_output");
    assert_eq!(o.actual_dir, "../data/round0");
    assert_eq!(o.fv_mode, FvMode::Replay);
    assert_eq!(o.trade_mode, TradeMode::ReplayTimes);
    assert_eq!(o.seed, 20_260_401);
    assert_eq!(o.strategy_path, None);
    assert_eq!(o.python_bin, "python3");
    assert_eq!(o.sessions, 1);
    assert_eq!(o.write_session_limit, 0);
    assert_eq!(o.ticks_per_day, 10_000);
    assert_eq!(o.config_path, None);
    assert!(!o.fixed_params && !o.dro);
    assert_eq!(o.dro_radius, None);
    assert_eq!(o.dro_k, 8);
}

#[test]
fn flags_set_their_options() {
    let o = run(&[
        "--config", "../configs/tutorial.toml", "--strategy", "../example_trader.py",
        "--sessions", "3", "--seed", "42", "--python-bin", "py", "--write-session-limit", "2",
        "--output", "/tmp/out", "--dro", "--dro-k", "3", "--dro-radius", "1.5",
        "--fv-mode", "simulate", "--trade-mode", "simulate", "--ticks-per-day", "500",
        "--fixed-params", "--tomato-support", "anything", "--actual-dir", "data",
    ])
    .unwrap();
    assert_eq!(o.config_path.as_deref(), Some("../configs/tutorial.toml"));
    assert_eq!(o.strategy_path.as_deref(), Some("../example_trader.py"));
    assert_eq!(o.sessions, 3);
    assert_eq!(o.seed, 42);
    assert_eq!(o.python_bin, "py");
    assert_eq!(o.write_session_limit, 2);
    assert_eq!(o.output_dir, "/tmp/out");
    assert!(o.dro && o.fixed_params);
    assert_eq!(o.dro_k, 3);
    assert_eq!(o.dro_radius.as_deref(), Some("1.5"));
    assert_eq!(o.fv_mode, FvMode::Simulate);
    assert_eq!(o.trade_mode, TradeMode::Simulate);
    assert_eq!(o.ticks_per_day, 500);
    assert_eq!(o.actual_dir, "data");
}

#[test]
fn later_flags_override_earlier_ones() {
    let o = run(&["--seed", "1", "--seed", "2"]).unwrap();
    assert_eq!(o.seed, 2);
}

#[test]
fn missing_value_is_refused() {
    match run(&["--sessions", "2", "--seed"]) {
        Err(CliError::MissingValue(flag)) => assert_eq!(flag, "--seed"),
        other => panic!("unexpected {:?}", other),
    }
}

#[test]
fn bad_numbers_are_refused() {
    match run(&["--seed", "-3"]) {
        Err(CliError::Invalid(flag)) => assert_eq!(flag, "--seed"),
        other => panic!("unexpected {:?}", other),
    }
    match run(&["--dro-radius", "wide"]) {
        Err(CliError::Invalid(flag)) => assert_eq!(flag, "--dro-radius"),
        other => panic!("unexpected {:?}", other),
    }
    match run(&["--dro-k", "2.5"]) {
        Err(CliError::Invalid(flag)) => assert_eq!(flag, "--dro-k"),
        other => panic!("unexpected {:?}", other),
    }
}

#[test]
fn unknown_modes_are_refused() {
    match run(&["--fv-mode", "guess"]) {
        Err(CliError::Unsupported { flag, value }) => {
            assert_eq!(flag, "--fv-mode");
            assert_eq!(value, "guess");
        }
        other => panic!("unexpected {:?}", other),
    }
    match run(&["--trade-mode", "replay"]) {
        Err(CliError::Unsupported { flag, value }) => {
            assert_eq!(flag, "--trade-mode");
            assert_eq!(value, "replay");
        }
        other => panic!("unexpected {:?}", other),
    }
}

#[test]
fn unknown_argument_is_refused_in_order() {
    match run(&["--seed", "5", "--verbose", "--seed", "x"]) {
        Err(CliError::UnknownArgument(a)) => assert_eq!(a, "--verbose"),
        other => panic!("unexpected {:?}", other),
    }
    match run(&["--dro-radius", "x", "--verbose"]) {
        Err(CliError::Invalid(flag)) => assert_eq!(flag, "--dro-radius"),
        other => panic!("unexpected {:?}", other),
    }
}

#[test]
fn readings_decide_what_numbers_are() {
    let args: Vec<String> = ["--seed", "seven", "--dro-k", "many", "--dro-radius", "wide"]
        .iter()
        .map(|s| s.to_string())
        .collect();
    let number = NumberReading { as_u64: Some(7), as_usize: Some(5), as_float: true };
    let word = NumberReading { as_u64: None, as_usize: None, as_float: false };
    let readings = vec![word, number, word, number, word, number];
    let o = parse_args_with_readings(&args, &readings).unwrap();
    assert_eq!(o.seed, 7);
    assert_eq!(o.dro_k, 5);
    assert_eq!(o.dro_radius.as_deref(), Some("wide"));
    let readings = vec![word; 6];
    match parse_args_with_readings(&args, &readings) {
        Err(CliError::Invalid(flag)) => assert_eq!(flag, "--seed"),
        other => panic!("unexpected {:?}", other),
    }
}

#[test]
fn numbers_read_as_the_standard_library_reads_them() {
    assert_eq!(run(&["--seed", "+7"]).unwrap().seed, 7);
    assert_eq!(run(&["--seed", "18446744073709551615"]).unwrap().seed, u64::MAX);
    assert!(matches!(run(&["--seed", "18446744073709551616"]), Err(CliError::Invalid(_))));
    assert!(matches!(run(&["--seed", "-1"]), Err(CliError::Invalid(_))));
    assert!(matches!(run(&["--seed", " 1"]), Err(CliError::Invalid(_))));
    assert!(matches!(run(&["--sessions", "+"]), Err(CliError::Invalid(_))));
}
