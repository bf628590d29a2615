use needs::binary::{sort_binaries, Binary};
use needs::cli::Cli;
use needs::error::{AppError, ConfigError, DiscoveryError, IoError, VersionError};
use needs::extract::{extract_version, find_token};
use needs::io::get_binary_names;
use needs::normalize::clean_version_string;
use needs::probe::execute_binary;
use needs::version::parse_strict;
use needs::versions::{
    format_version, get_versions_for_bins, is_allowlisted, known_binaries, run_pipeline,
    unknown_version, version_from_output,
};

fn chars(s: &str) -> Vec<char> {
    s.chars().collect()
}

fn parse(s: &str) -> Option<needs::version::NormalizedVersion> {
    parse_strict(&chars(s))
}

#[test]
fn test_version_regex() {
    let test_strings = [
        ("1.0.0", "1.0.0"),
        // eza
        ("v1.0.0", "1.0.0"),
        // luajit
        ("2.1.1713773202", "2.1.1713773202"),
        // viddy
        ("1.3.0-VERGEN_IDEMPOTENT_OUTPUT", "1.3.0-VERGEN"),
        // helix
        ("25.01.01", "25.1.1"),
        // love2d
        ("11.5", "11.5.0"),
    ];

    for (output, expected) in test_strings {
        let captures = find_token(&chars(output));
        assert!(captures.is_some(), "Failed to match: {}", output);
        if let Some(tok) = captures {
            let version_str: String = tok.iter().collect();

            let version_string_cleaned = clean_version_string(&version_str);
            println!("Version string cleaned: {} -> {}", version_str, version_string_cleaned);

            let version = parse(&version_string_cleaned);
            let expected = parse(expected).unwrap();
            match version {
                Some(v) => {
                    assert_eq!(v, expected);
                },
                None => panic!(
                    "Failed to parse version:\nExpected: {:?}\n     Got: {}",
                    expected, version_str
                ),
            }
        }
    }
}

#[test]
fn test_extract_version() {
    let test_strings = [
        ("bacon 3.10.0", "3.10.0"),
        ("bat 0.25.0 (25f4f96)", "0.25.0"),
        ("boss 0.6.2", "0.6.2"),
        ("bottom 0.10.2", "0.10.2"),
        ("cargo 1.85.0 (d73d2caf9 2024-12-31)", "1.85.0"),
        ("deno 2.2.2 (stable, release, aarch64-apple-darwin)", "2.2.2"),
        ("eget version v1.3.4", "1.3.4"),
        ("v0.20.22 [+git]", "0.20.22"),
        ("fd 10.2.0", "10.2.0"),
        ("glow version 2.0.0", "2.0.0"),
        ("gum version 0.15.2", "0.15.2"),
        ("helix 25.01.1 (e7ac2fcd)", "25.1.1"),
        ("LOVE 11.5 (Mysterious Mysteries)", "11.5.0"),
        ("Lua 5.2.4  Copyright (C) 1994-2015 Lua.org, PUC-Rio", "5.2.4"),
        (
            "LuaJIT 2.1.1713773202 -- Copyright (C) 2005-2023 Mike Pall. https://luajit.org/",
            "2.1.1713773202",
        ),
        ("pls 0.0.1-beta.9", "0.0.1-beta.9"),
        ("pueue 3.4.1", "3.4.1"),
        ("ripgrep 14.1.1 (rev 4649aa9700)", "14.1.1"),
        ("taplo 0.9.3", "0.9.3"),
        ("tealdeer 1.7.1", "1.7.1"),
        ("topgrade 16.0.2", "16.0.2"),
        ("viddy 1.3.0-VERGEN_IDEMPOTENT_OUTPUT (2024-11-29)", "1.3.0-VERGEN"),
        ("Yazi 25.2.11 (ce9092e 2025-02-11)", "25.2.11"),
        ("zoxide 0.9.7", "0.9.7"),
    ];
    for (output, expected) in test_strings {
        let version = extract_version(output, "cargo");
        assert!(version.is_ok(), "Failed to match: {}", output);
        if let Ok(version) = version {
            let version_string_cleaned = clean_version_string(&version);
            println!("Version string cleaned: {} -> {}", version, version_string_cleaned);

            let parsed = parse(&version_string_cleaned);
            let expected = parse(expected).unwrap();
            match parsed {
                Some(v) => {
                    assert_eq!(v, expected);
                },
                None => panic!(
                    "Failed to parse version:\nExpected: {:?}\n     Got: {}",
                    expected, version_string_cleaned
                ),
            }
        }
    }
}

#[test]
fn test_extract_version_no_match_feature_on() {
    let output = "no version found\n";
    let version = extract_version(output, "test_binary");
    assert!(version.is_err(), "Should return an error when no version is found");
    if let Err(e) = version {
        let err_string = e.code();
        println!("Error string: {}", err_string);
        assert!(err_string.contains("needs::version::parse_failed"));
    }
}

#[test]
fn test_get_binary_names_from_args() {
    let cli = {
        let bins = Some(vec!["bat".to_string(), "btm".to_string()]);
        Cli { bins, quiet: false, verbosity: 0, no_versions: false, full_versions: false }
    };
    let binaries = get_binary_names(&cli, &Vec::new()).unwrap();
    assert_eq!(binaries.len(), 2);
    assert_eq!(binaries[0].name, "bat");
    assert_eq!(binaries[1].name, "btm");
}

#[test]
fn test_run_command_with_version_feature_on() {
    let binary_name = "cargo"; // A binary likely present in dev environment
    let version_output = execute_binary(binary_name);
    println!("Version output for {}: {:?}", binary_name, version_output);
    if which::which(binary_name).is_ok() {
        // Only assert if cargo is actually found
        assert!(
            version_output.is_ok(),
            "cargo --version should return Ok result if cargo is present"
        );
        if let Ok(vo) = version_output {
            assert!(
                vo.to_lowercase().contains("cargo"),
                "cargo version output should contain 'cargo'"
            );
        }
    } else {
        println!("Skipping {} version check as it's not found in PATH", binary_name);
    }
}

#[test]
fn test_two_segments_get_zero_patch() {
    assert_eq!(clean_version_string("11.5"), "11.5.0");
    assert_eq!(clean_version_string("1.0"), "1.0.0");
}

#[test]
fn test_leading_zero_stripping_per_segment() {
    assert_eq!(clean_version_string("25.01.1"), "25.1.1");
    assert_eq!(clean_version_string("007.000.009"), "7.0.9");
}

#[test]
fn test_token_truncates_at_disallowed_character() {
    let tok = find_token(&chars("1.3.0-VERGEN_IDEMPOTENT_OUTPUT")).unwrap();
    let tok: String = tok.iter().collect();
    assert_eq!(tok, "1.3.0-VERGEN");
}

#[test]
fn test_extraction_uses_first_matching_line_only() {
    let out = "no digits on this line\nfirst 1.2.3 then 4.5.6\nlater 9.9.9";
    assert_eq!(extract_version(out, "tool").unwrap(), "1.2.3");
}

#[test]
fn test_normalization_is_idempotent() {
    for raw in ["1.2.3-alpha.1+build.5", "11.5", "25.01.1", "0.0.1-beta.9"] {
        let cleaned = clean_version_string(raw);
        let v = parse(&cleaned).unwrap();
        let rendered = format_version(&v, true);
        assert_eq!(rendered, cleaned);
        assert_eq!(clean_version_string(&rendered), rendered);
        assert_eq!(parse(&rendered).unwrap(), v);
    }
}

#[test]
fn test_allowlisted_binary_is_skipped_without_error() {
    let bins = vec![Binary::new("ls".to_string())];
    let records = get_versions_for_bins(bins);
    assert_eq!(records.len(), 1);
    assert_eq!(records[0].name, "ls");
    assert!(records[0].version.is_none());
    assert!(is_allowlisted("ls"));
    assert!(!is_allowlisted("ripgrep"));
    assert_eq!(known_binaries().len(), 24);
}

#[test]
fn test_end_to_end_probe_output_scenarios() {
    let v = version_from_output("bat 0.25.0 (25f4f96)", "bat").unwrap();
    assert_eq!(format_version(&v, true), "0.25.0");

    let v = version_from_output("helix 25.01.1 (e7ac2fcd)", "hx").unwrap();
    assert_eq!(format_version(&v, true), "25.1.1");

    let v = version_from_output("LOVE 11.5 (Mysterious Mysteries)", "love").unwrap();
    assert_eq!(format_version(&v, true), "11.5.0");
}

#[test]
fn test_semver_parse_failure_is_reported() {
    let err = version_from_output("tool 1.2.3-01", "tool").unwrap_err();
    assert_eq!(err.code(), "needs::version::semver_parse_failed");
    match err {
        VersionError::SemverParse { version_string } => {
            assert_eq!(version_string, "1.2.3-01");
        },
        other => panic!("unexpected error: {:?}", other),
    }
}

#[test]
fn test_probe_of_missing_binary_is_an_execution_error() {
    let err = execute_binary("hopefully_non_existent_binary_dsfargeg").unwrap_err();
    assert_eq!(err.code(), "needs::version::execution_failed");
}

#[test]
fn test_needsfile_sources() {
    let no_args = Cli { bins: None, quiet: false, verbosity: 0, no_versions: false, full_versions: false };

    let err = get_binary_names(&no_args, &Vec::new()).unwrap_err();
    assert_eq!(err.code(), "needs::io::needsfile_missing");

    let contents = vec!["  \n\t".to_string(), "git cargo\nnode".to_string(), "zsh".to_string()];
    let binaries = get_binary_names(&no_args, &contents).unwrap();
    let names: Vec<&str> = binaries.iter().map(|b| b.name.as_str()).collect();
    assert_eq!(names, vec!["git", "cargo", "node"]);

    let empty_args = Cli {
        bins: Some(vec!["".to_string()]),
        quiet: false,
        verbosity: 0,
        no_versions: false,
        full_versions: false,
    };
    let err = get_binary_names(&empty_args, &Vec::new()).unwrap_err();
    assert_eq!(err.code(), "needs::io::needsfile_empty");
    assert!(matches!(err, IoError::NeedsfileEmpty { .. }));
}

#[test]
fn test_unknown_version_placeholder() {
    let v = unknown_version();
    assert_eq!(format_version(&v, true), "0.0.0+unknown");
    assert_eq!(format_version(&v, false), "0.0.0");
}

#[test]
fn test_sort_binaries_orders_by_name() {
    let mut bins = vec![
        Binary::new("zsh".to_string()),
        Binary::new("bat".to_string()),
        Binary::new("ripgrep".to_string()),
    ];
    sort_binaries(&mut bins);
    let names: Vec<&str> = bins.iter().map(|b| b.name.as_str()).collect();
    assert_eq!(names, vec!["bat", "ripgrep", "zsh"]);
}

#[test]
fn test_display_string_forms() {
    let mut b = Binary::new("bat".to_string());
    assert_eq!(b.display_string(), "bat ?");
    b.package_manager = Some("rustup".to_string());
    assert_eq!(b.display_string(), "bat ? (rustup)");
    b.version = parse("0.25.0");
    assert_eq!(b.display_string(), "bat 0.25.0 (rustup)");
}

#[test]
fn test_version_value_bounds() {
    // the largest value that fits is accepted, one past it is not
    assert!(parse("18446744073709551615.0.0").is_some());
    assert!(parse("18446744073709551616.0.0").is_none());
    assert!(parse("1.2").is_none());
    assert!(parse("1.2.3.4").is_none());
    assert!(parse("01.2.3").is_none());
}

#[test]
fn test_error_codes_cover_every_variant() {
    let io = IoError::FileRead { path: "x".to_string(), message: "m".to_string() };
    assert_eq!(io.code(), "needs::io::read_failed");
    let io = IoError::FileWrite { path: "x".to_string(), message: "m".to_string() };
    assert_eq!(io.code(), "needs::io::write_failed");
    let cfg = ConfigError::Invalid { reason: "r".to_string(), advice: "a".to_string() };
    assert_eq!(cfg.code(), "needs::config::invalid_config");
    let cfg = ConfigError::LoggerSetup { message: "m".to_string() };
    assert_eq!(cfg.code(), "needs::config::logger_setup_failed");
    let disc = DiscoveryError::BinaryCheck { name: "n".to_string(), message: "m".to_string() };
    assert_eq!(disc.code(), "needs::discovery::binary_check_failed");
    let app = AppError::Discovery(DiscoveryError::NoBinariesSpecified);
    assert_eq!(app.code(), "needs::discovery::no_binaries");
    let ver = VersionError::Execution { name: "n".to_string(), message: "m".to_string() };
    assert_eq!(ver.code(), "needs::version::execution_failed");
}

#[test]
fn test_run_pipeline_partitions_and_sorts() {
    let bins = vec![
        Binary::new("zz_no_such_binary_b".to_string()),
        Binary::new("aa_no_such_binary_a".to_string()),
    ];
    let (available, not_available) = run_pipeline(bins, true).unwrap();
    assert!(available.is_empty());
    let names: Vec<&str> = not_available.iter().map(|b| b.name.as_str()).collect();
    assert_eq!(names, vec!["aa_no_such_binary_a", "zz_no_such_binary_b"]);

    let err = run_pipeline(vec![], true).unwrap_err();
    assert_eq!(err.code(), "needs::discovery::no_binaries");
}
