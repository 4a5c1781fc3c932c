use autodpi::cli::{parse, verbosity_fits, CliError, Command, IntErrorKind, Parsed};

fn args(list: &[&str]) -> Vec<String> {
    list.iter().map(|s| s.to_string()).collect()
}

fn run(list: &[&str]) -> Result<Parsed, CliError> {
    let a = args(list);
    assert!(verbosity_fits(&a));
    parse(a)
}

#[test]
fn no_arguments_means_help() {
    let p = run(&[]).unwrap();
    assert!(matches!(p.command, Command::Help));
    assert_eq!(p.verbose, 0);
}

#[test]
fn help_and_version_words() {
    for w in ["-h", "--help", "help"] {
        assert!(matches!(run(&[w, "--bogus"]).unwrap().command, Command::Help));
    }
    for w in ["-V", "--version"] {
        assert!(matches!(run(&[w]).unwrap().command, Command::Version));
    }
}

#[test]
fn probe_with_defaults() {
    let p = run(&["probe", "--sni", "www.example.com", "--ip", "93.184.216.34"]).unwrap();
    match p.command {
        Command::Probe(t) => {
            assert_eq!(t.sni, "www.example.com");
            assert_eq!(t.ip, "93.184.216.34");
            assert_eq!(t.port, 443);
            assert_eq!(t.timeout_ms, 4000);
        }
        other => panic!("unexpected {:?}", other),
    }
    assert_eq!(p.verbose, 0);
}

#[test]
fn tune_with_rounds_and_verbosity() {
    let p = run(&[
        "tune", "--sni", "example.com", "--ip", "1.2.3.4", "--rounds", "5", "-v", "-vv",
        "--port", "8443", "--timeout-ms", "250",
    ])
    .unwrap();
    match p.command {
        Command::Tune { target, rounds } => {
            assert_eq!(rounds, 5);
            assert_eq!(target.port, 8443);
            assert_eq!(target.timeout_ms, 250);
        }
        other => panic!("unexpected {:?}", other),
    }
    assert_eq!(p.verbose, 3);
}

#[test]
fn tune_defaults_to_three_rounds() {
    match run(&["tune", "--sni", "a", "--ip", "b"]).unwrap().command {
        Command::Tune { rounds, .. } => assert_eq!(rounds, 3),
        other => panic!("unexpected {:?}", other),
    }
}

#[test]
fn run_reads_config_path() {
    match run(&["run"]).unwrap().command {
        Command::Run { config } => assert_eq!(config, "config.json"),
        other => panic!("unexpected {:?}", other),
    }
    match run(&["run", "--config", "my.json", "--verbose"]).unwrap() {
        Parsed { command: Command::Run { config }, verbose } => {
            assert_eq!(config, "my.json");
            assert_eq!(verbose, 1);
        }
        other => panic!("unexpected {:?}", other),
    }
}

#[test]
fn help_flag_after_command_wins() {
    let p = run(&["probe", "-v", "-h", "stray"]).unwrap();
    assert!(matches!(p.command, Command::Help));
    assert_eq!(p.verbose, 1);
    assert!(matches!(run(&["nonsense", "--help"]).unwrap().command, Command::Help));
}

#[test]
fn option_without_value_is_refused() {
    match run(&["probe", "--sni"]) {
        Err(CliError::MissingValue(k)) => assert_eq!(k, "sni"),
        other => panic!("unexpected {:?}", other),
    }
    match run(&["probe", "----sni"]) {
        Err(CliError::MissingValue(k)) => assert_eq!(k, "sni"),
        other => panic!("unexpected {:?}", other),
    }
}

#[test]
fn stray_argument_is_refused() {
    match run(&["probe", "stray"]) {
        Err(CliError::UnexpectedArgument(a)) => assert_eq!(a, "stray"),
        other => panic!("unexpected {:?}", other),
    }
}

#[test]
fn unknown_command_is_refused_after_flags() {
    match run(&["bogus", "--x", "1"]) {
        Err(CliError::UnknownCommand(c)) => assert_eq!(c, "bogus"),
        other => panic!("unexpected {:?}", other),
    }
    // the flags are read first
    match run(&["bogus", "--x"]) {
        Err(CliError::MissingValue(k)) => assert_eq!(k, "x"),
        other => panic!("unexpected {:?}", other),
    }
}

#[test]
fn required_options() {
    match run(&["probe", "--ip", "1.1.1.1"]) {
        Err(CliError::MissingOption(k)) => assert_eq!(k, "sni"),
        other => panic!("unexpected {:?}", other),
    }
    match run(&["probe", "--sni", "a"]) {
        Err(CliError::MissingOption(k)) => assert_eq!(k, "ip"),
        other => panic!("unexpected {:?}", other),
    }
}

#[test]
fn numbers_are_parsed_like_std() {
    let port = |v: &str| match run(&["probe", "--sni", "a", "--ip", "b", "--port", v]) {
        Ok(Parsed { command: Command::Probe(t), .. }) => Ok(t.port),
        Err(CliError::InvalidNumber(k)) => Err(k),
        other => panic!("unexpected {:?}", other),
    };
    assert_eq!(port("80"), Ok(80));
    assert_eq!(port("+80"), Ok(80));
    assert_eq!(port("0065535"), Ok(65535));
    assert_eq!(port("65536"), Err(IntErrorKind::PosOverflow));
    assert_eq!(port(""), Err(IntErrorKind::Empty));
    assert_eq!(port("+"), Err(IntErrorKind::InvalidDigit));
    assert_eq!(port("-"), Err(IntErrorKind::InvalidDigit));
    assert_eq!(port("-1"), Err(IntErrorKind::InvalidDigit));
    assert_eq!(port("8x"), Err(IntErrorKind::InvalidDigit));
    assert_eq!(port("99999x"), Err(IntErrorKind::PosOverflow));
    for v in ["80", "+80", "65536", "", "+", "8x", "99999x", "٣"] {
        assert_eq!(port(v), v.parse::<u16>().map_err(|e| match e.kind() {
            std::num::IntErrorKind::Empty => IntErrorKind::Empty,
            std::num::IntErrorKind::PosOverflow => IntErrorKind::PosOverflow,
            _ => IntErrorKind::InvalidDigit,
        }));
    }
}

#[test]
fn rounds_are_read_before_the_target() {
    match run(&["tune", "--rounds", "x"]) {
        Err(CliError::InvalidNumber(IntErrorKind::InvalidDigit)) => {}
        other => panic!("unexpected {:?}", other),
    }
    match run(&["tune", "--sni", "a", "--ip", "b", "--rounds", "4294967296"]) {
        Err(CliError::InvalidNumber(IntErrorKind::PosOverflow)) => {}
        other => panic!("unexpected {:?}", other),
    }
}

#[test]
fn later_options_override_earlier_ones() {
    match run(&["probe", "--sni", "a", "--sni", "b", "--ip", "c"]).unwrap().command {
        Command::Probe(t) => assert_eq!(t.sni, "b"),
        other => panic!("unexpected {:?}", other),
    }
}

#[test]
fn values_may_start_with_dashes() {
    match run(&["probe", "--sni", "-v", "--ip", "--x"]).unwrap() {
        Parsed { command: Command::Probe(t), verbose } => {
            assert_eq!(t.sni, "-v");
            assert_eq!(t.ip, "--x");
            assert_eq!(verbose, 0);
        }
        other => panic!("unexpected {:?}", other),
    }
}

#[test]
fn verbosity_beyond_a_byte_is_flagged() {
    let mut many = vec!["run".to_string()];
    for _ in 0..128 {
        many.push("-vv".to_string());
    }
    assert!(!verbosity_fits(&many));
    many.truncate(128);
    assert!(verbosity_fits(&many));
    let p = parse(many).unwrap();
    assert_eq!(p.verbose, 254);
}

#[test]
fn error_messages() {
    let msg = |list: &[&str]| run(list).err().expect("refused").message();
    assert_eq!(msg(&["probe", "--ip", "1.2.3.4", "--sni"]), "option --sni needs a value");
    assert_eq!(msg(&["run", "extra"]), "unexpected argument: extra");
    assert_eq!(msg(&["frobnicate"]), "unknown command: frobnicate (try `autodpi help`)");
    assert_eq!(msg(&["probe", "--sni", "a"]), "--ip is required");
    let std_msg = |v: &str| v.parse::<u16>().unwrap_err().to_string();
    assert_eq!(msg(&["probe", "--sni", "a", "--ip", "b", "--port", ""]), std_msg(""));
    assert_eq!(msg(&["probe", "--sni", "a", "--ip", "b", "--port", "x"]), std_msg("x"));
    assert_eq!(msg(&["probe", "--sni", "a", "--ip", "b", "--port", "70000"]), std_msg("70000"));
}

#[test]
fn verbosity_is_the_flag_total_in_any_order() {
    let a = run(&["probe", "-vv", "--ip", "1.2.3.4", "-v", "--sni", "-v", "--verbose"]).unwrap();
    let b = run(&["probe", "--verbose", "--sni", "-v", "-v", "--ip", "1.2.3.4", "-vv"]).unwrap();
    // The value "-v" of --sni is not a flag.
    assert_eq!(a.verbose, 4);
    assert_eq!(b.verbose, 4);
}
