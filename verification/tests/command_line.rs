use dkim_lite::cli::{parse_args, parse_generate_args, parse_u32, Command, DEFAULT_CONFIG, USAGE};
use dkim_lite::text::{decimal_of, white_space};

fn strings(values: &[&str]) -> Vec<String> {
    values.iter().map(|value| (*value).to_owned()).collect()
}

fn refused(values: &[&str]) -> String {
    match parse_args(&strings(values)) {
        Ok(_) => panic!("accepted"),
        Err(error) => error,
    }
}

fn served(values: &[&str]) -> (String, bool) {
    match parse_args(&strings(values)) {
        Ok(Command::Serve {
            config_path,
            check_only,
        }) => (config_path, check_only),
        _ => panic!("unexpected command"),
    }
}

#[test]
fn parses_generate_key_defaults() {
    let command = parse_args(&strings(&[
        "dkim-lite",
        "generate-key",
        "--domain",
        "example.com",
        "--selector",
        "mail",
        "--private-key",
        "/tmp/mail.pem",
    ]))
    .unwrap();
    match command {
        Command::GenerateKey(options) => {
            assert_eq!(options.bits, 2048);
            assert!(options.require_fips);
        }
        _ => panic!("unexpected command"),
    }
}

#[test]
fn parses_generate_key_overrides_strictly() {
    let command = parse_args(&strings(&[
        "dkim-lite",
        "generate-key",
        "--domain",
        "example.com",
        "--selector",
        "mail",
        "--private-key",
        "/tmp/mail.pem",
        "--bits",
        "4096",
        "--require-fips",
        "false",
    ]))
    .unwrap();
    match command {
        Command::GenerateKey(options) => {
            assert_eq!(options.bits, 4096);
            assert!(!options.require_fips);
        }
        _ => panic!("unexpected command"),
    }
    assert!(parse_args(&strings(&["dkim-lite", "generate-key", "--domain"])).is_err());
}

#[test]
fn service_arguments_are_read() {
    let default = DEFAULT_CONFIG.to_owned();
    assert_eq!(default, "/etc/dkim-lite/dkim-lite.conf");
    assert_eq!(served(&[]), (default.clone(), false));
    assert_eq!(served(&["dkim-lite"]), (default.clone(), false));
    assert_eq!(served(&["dkim-lite", "--check-config"]), (default, true));
    for args in [
        ["x", "--config", "/c", "--check-config"],
        ["x", "--check-config", "--config", "/c"],
    ] {
        assert_eq!(served(&args), ("/c".to_owned(), true));
    }
    assert_eq!(
        served(&["x", "--config", "--check-config"]),
        ("--check-config".to_owned(), false)
    );
    for (args, help) in [
        (["x", "--version"], false),
        (["x", "--help"], true),
        (["x", "-h"], true),
    ] {
        match parse_args(&strings(&args)) {
            Ok(Command::Help) => assert!(help),
            Ok(Command::Version) => assert!(!help),
            _ => panic!("unexpected command"),
        }
    }
    assert!(USAGE.starts_with("Usage:\n  dkim-lite [--config PATH]"));
    assert!(USAGE.ends_with("  dkim-lite --version\n"));
}

#[test]
fn wrong_service_arguments_are_refused() {
    assert_eq!(
        refused(&["x", "--check-config", "--check-config"]),
        "duplicate --check-config"
    );
    assert_eq!(
        refused(&["x", "--config", "a", "--config", "b"]),
        "duplicate --config"
    );
    assert_eq!(refused(&["x", "--config"]), "--config requires a path");
    assert_eq!(refused(&["x", "serve"]), "unknown argument: serve");
    assert_eq!(
        refused(&["x", "--version", "--check-config"]),
        "unknown argument: --version"
    );
    assert_eq!(
        refused(&["x", "--check-config", "-h"]),
        "unknown argument: -h"
    );
}

#[test]
fn wrong_key_options_are_refused() {
    for (args, error) in [
        (vec![], "generate-key requires --domain"),
        (vec!["--domain", "a"], "generate-key requires --selector"),
        (
            vec!["--domain", "a", "--selector", "b"],
            "generate-key requires --private-key",
        ),
        (vec!["--selector"], "--selector requires a value"),
        (vec!["--colour"], "--colour requires a value"),
        (
            vec!["--colour", "red"],
            "unknown generate-key argument: --colour",
        ),
        (
            vec!["--domain", "a", "--domain", "b"],
            "duplicate --domain",
        ),
        (
            vec!["--bits", "2048", "--bits", "x"],
            "duplicate --bits",
        ),
        (vec!["--bits", "many"], "--bits requires an integer"),
        (
            vec!["--require-fips", "yes"],
            "--require-fips must be true or false",
        ),
    ] {
        match parse_generate_args(&strings(&args)) {
            Ok(_) => panic!("accepted"),
            Err(found) => assert_eq!(found, error),
        }
    }
    assert!(matches!(
        parse_generate_args(&strings(&["--domain", "a", "-h"])),
        Ok(Command::Help)
    ));
}

#[test]
fn key_options_come_in_any_order() {
    let command = parse_generate_args(&strings(&[
        "--require-fips",
        "true",
        "--private-key",
        "/k",
        "--bits",
        "+3072",
        "--selector",
        "s",
        "--domain",
        "d",
    ]));
    match command {
        Ok(Command::GenerateKey(options)) => {
            assert_eq!(options.domain, "d");
            assert_eq!(options.selector, "s");
            assert_eq!(options.private_key, "/k");
            assert_eq!(options.bits, 3072);
            assert!(options.require_fips);
        }
        _ => panic!("unexpected command"),
    }
}

#[test]
fn numbers_are_read_as_std_reads_them() {
    for text in [
        "", "+", "-", "0", "-0", "+0", "007", "++1", "1 ", " 1", "1_0", "4294967295",
        "4294967296", "+4294967295", "99999999999999999999999", "0x10", "\u{0661}",
    ] {
        assert_eq!(parse_u32(text), text.parse::<u32>().ok(), "{text}");
    }
    for n in [0, 9, 10, 2048, u32::MAX] {
        assert_eq!(decimal_of(u64::from(n)), n.to_string());
        assert_eq!(parse_u32(&decimal_of(u64::from(n))), Some(n));
    }
    assert_eq!(decimal_of(u64::MAX), u64::MAX.to_string());
}

#[test]
fn white_space_is_what_std_takes_for_it() {
    for code in 0..=0x10_ffffu32 {
        if let Some(c) = char::from_u32(code) {
            assert_eq!(white_space(c), c.is_whitespace(), "{code:x}");
        }
    }
}
