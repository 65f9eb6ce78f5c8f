use std::time::{Duration, SystemTime, UNIX_EPOCH};
use dirtrack::filters::{classify_type, matches_filename, matches_type, parse_since, since_outcome, SinceOutcome};

fn nanos(t: SystemTime) -> i128 {
    match t.duration_since(UNIX_EPOCH) {
        Ok(d) => d.as_nanos() as i128,
        Err(e) => -(e.duration().as_nanos() as i128),
    }
}

#[test]
fn test_parse_since_hours() {
    let cutoff = parse_since("2h").unwrap();
    let expected = nanos(SystemTime::now() - Duration::from_secs(2 * 3600));
    let diff = if cutoff > expected { cutoff - expected } else { 0 };
    assert!(diff / 1_000_000_000 < 5);
}

#[test]
fn test_parse_since_days() {
    let cutoff = parse_since("7d").unwrap();
    let expected = nanos(SystemTime::now() - Duration::from_secs(7 * 86400));
    let diff = if cutoff > expected { cutoff - expected } else { 0 };
    assert!(diff / 1_000_000_000 < 5);
}

#[test]
fn test_parse_since_iso_date() {
    let cutoff = parse_since("2026-01-01").unwrap();
    // 2026-01-01 00:00:00 UTC as unix timestamp = 1767225600
    let expected = nanos(UNIX_EPOCH + Duration::from_secs(1767225600));
    assert_eq!(cutoff, expected);
}

#[test]
fn test_parse_since_invalid() {
    assert!(parse_since("badvalue").is_err());
}

#[test]
fn test_matches_type_secrets_preset() {
    assert!(matches_type(".env", "secrets"));
    assert!(matches_type(".pem", "secrets"));
    assert!(!matches_type(".rs", "secrets"));
}

#[test]
fn test_matches_type_configs_preset() {
    assert!(matches_type(".yaml", "configs"));
    assert!(matches_type(".toml", "configs"));
    assert!(!matches_type(".env", "configs"));
}

#[test]
fn test_matches_type_all() {
    assert!(matches_type(".anything", "all"));
    assert!(matches_type(".rs", "all"));
}

#[test]
fn test_matches_type_custom_extensions() {
    assert!(matches_type(".env", ".env,.toml"));
    assert!(matches_type(".toml", ".env,.toml"));
    assert!(!matches_type(".rs", ".env,.toml"));
}

#[test]
fn test_matches_filename_exact() {
    assert!(matches_filename(".env", ".env"));
    assert!(!matches_filename(".env.local", ".env"));
}

#[test]
fn test_classify_type_uses_presets() {
    assert_eq!(classify_type(".env"), "secrets");
    assert_eq!(classify_type(".yaml"), "configs");
    assert_eq!(classify_type(".rs"), "code");
    assert_eq!(classify_type(".md"), "other");
}

#[test]
fn preset_table_extensions_match_and_label() {
    let table = [
        ("secrets", vec![".env", ".key", ".pem", ".p12", ".pfx", ".secret"]),
        ("configs", vec![".yaml", ".yml", ".toml", ".json", ".ini", ".conf"]),
        ("code", vec![".rs", ".ts", ".tsx", ".py", ".go", ".js"]),
    ];
    for (preset, exts) in table.iter() {
        for e in exts {
            assert!(matches_type(e, preset), "{} should match {}", e, preset);
            assert!(matches_type(e, "all"));
            assert_eq!(classify_type(e), *preset);
            for (other, _) in table.iter() {
                if other != preset {
                    assert!(!matches_type(e, other));
                }
            }
        }
    }
}

#[test]
fn type_match_is_case_insensitive_on_extension() {
    assert!(matches_type(".ENV", "secrets"));
    assert!(matches_type(".Toml", ".env,.toml"));
    assert_eq!(classify_type(".YAML"), "configs");
}

#[test]
fn custom_list_entries_are_trimmed_and_lowercased() {
    assert!(matches_type(".toml", " .ENV , .TOML "));
    assert!(!matches_type(".tom", ".env,.toml"));
    assert!(!matches_type("", "secrets"));
}

#[test]
fn since_outcome_relative_units_at_fixed_clock() {
    let now: i128 = 1_000_000 * 1_000_000_000;
    match since_outcome("2h", now) {
        SinceOutcome::Parsed(t) => assert_eq!(t, now - 7200 * 1_000_000_000),
        _ => panic!("2h should parse"),
    }
    match since_outcome("30m", now) {
        SinceOutcome::Parsed(t) => assert_eq!(t, now - 1800 * 1_000_000_000),
        _ => panic!("30m should parse"),
    }
    match since_outcome("+3d", now) {
        SinceOutcome::Parsed(t) => assert_eq!(t, now - 3 * 86400 * 1_000_000_000),
        _ => panic!("+3d should parse"),
    }
    match since_outcome("0m", now) {
        SinceOutcome::Parsed(t) => assert_eq!(t, now),
        _ => panic!("0m should parse"),
    }
}

#[test]
fn since_outcome_error_messages() {
    let now: i128 = 0;
    match since_outcome("xh", now) {
        SinceOutcome::Invalid(e) => assert_eq!(e, "invalid hours: xh"),
        _ => panic!("xh is invalid"),
    }
    match since_outcome("-1d", now) {
        SinceOutcome::Invalid(e) => assert_eq!(e, "invalid days: -1d"),
        _ => panic!("-1d is invalid"),
    }
    match since_outcome("m", now) {
        SinceOutcome::Invalid(e) => assert_eq!(e, "invalid minutes: m"),
        _ => panic!("m is invalid"),
    }
    match since_outcome("2026-13-01", now) {
        SinceOutcome::Invalid(e) => {
            assert_eq!(e, "invalid date/duration '2026-13-01'. Use: 2h, 7d, 30m, or 2026-01-01")
        }
        _ => panic!("month 13 is invalid"),
    }
}

#[test]
fn since_outcome_dates_and_out_of_range() {
    match since_outcome("1970-01-02", 0) {
        SinceOutcome::Parsed(t) => assert_eq!(t, 86400 * 1_000_000_000),
        _ => panic!("date should parse"),
    }
    match since_outcome("2024-03-01", 0) {
        SinceOutcome::Parsed(t) => assert_eq!(t, 1709251200i128 * 1_000_000_000),
        _ => panic!("date should parse"),
    }
    assert!(matches!(since_outcome("1969-12-31", 0), SinceOutcome::OutOfRange));
    assert!(matches!(since_outcome("18446744073709551615h", 0), SinceOutcome::OutOfRange));
}
