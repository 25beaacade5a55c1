use log_hound::duration::parse_duration;
use log_hound::duration::to_docker_since;
use log_hound::duration::DurationError;

#[test]
fn test_simple_durations() {
    assert_eq!(parse_duration("30s").unwrap(), 30);
    assert_eq!(parse_duration("15m").unwrap(), 15 * 60);
    assert_eq!(parse_duration("2h").unwrap(), 2 * 3600);
    assert_eq!(parse_duration("1d").unwrap(), 86400);
    assert_eq!(parse_duration("1w").unwrap(), 7 * 86400);
}

#[test]
fn test_combined_durations() {
    assert_eq!(parse_duration("1h30m").unwrap(), 90 * 60);
    assert_eq!(parse_duration("2d12h").unwrap(), 60 * 3600);
    assert_eq!(parse_duration("1w2d").unwrap(), 9 * 86400);
}

#[test]
fn test_decimal_durations() {
    assert_eq!(parse_duration("1.5h").unwrap(), 90 * 60);
    assert_eq!(parse_duration("0.5d").unwrap(), 12 * 3600);
}

#[test]
fn test_verbose_formats() {
    assert_eq!(parse_duration("2hours").unwrap(), 2 * 3600);
    assert_eq!(parse_duration("30mins").unwrap(), 30 * 60);
    assert_eq!(parse_duration("1week").unwrap(), 7 * 86400);
    assert_eq!(parse_duration("3days").unwrap(), 3 * 86400);
}

#[test]
fn test_case_insensitive() {
    assert_eq!(parse_duration("2H").unwrap(), 2 * 3600);
    assert_eq!(parse_duration("30M").unwrap(), 30 * 60);
    assert_eq!(parse_duration("1D").unwrap(), 86400);
}

#[test]
fn test_invalid_input() {
    assert!(parse_duration("").is_err());
    assert!(parse_duration("abc").is_err());
    assert!(parse_duration("5x").is_err());
}

#[test]
fn test_error_variants() {
    assert_eq!(parse_duration("").unwrap_err(), DurationError::Empty);
    assert_eq!(parse_duration("   ").unwrap_err(), DurationError::Empty);
    assert_eq!(parse_duration("abc").unwrap_err(), DurationError::Unrecognized);
    assert_eq!(parse_duration("5x").unwrap_err(), DurationError::Unrecognized);
    assert!(parse_duration("").unwrap_err().message().len() > 0);
    assert!(parse_duration("abc").unwrap_err().message().contains("1h30m"));
}

#[test]
fn test_concatenation_is_additive() {
    // appending components adds their values
    let one = parse_duration("1h").unwrap() + parse_duration("30m").unwrap();
    assert_eq!(parse_duration("1h30m").unwrap(), one);
    let two = parse_duration("2d").unwrap() + parse_duration("12h").unwrap();
    assert_eq!(parse_duration("2d12h").unwrap(), two);
}

#[test]
fn test_fractions_sum_exactly() {
    // a lone sub-second component truncates to zero whole seconds
    assert_eq!(parse_duration("0.9s").unwrap(), 0);
    // two half-second components sum to one whole second
    assert_eq!(parse_duration("0.5s0.5s").unwrap(), 1);
    // the fractions are summed exactly before the single truncation:
    // 0.5009 + 0.4995 = 1.0004 seconds
    assert_eq!(parse_duration("0.5009s0.4995s").unwrap(), 1);
    // long fractions stay exact too
    assert_eq!(parse_duration("0.4999999999999999999999999s0.5000000000000000000000001s").unwrap(), 1);
}

#[test]
fn test_to_docker_since() {
    assert_eq!(to_docker_since("1h30m").unwrap(), "1h30m");
    assert_eq!(to_docker_since("  1H30M  ").unwrap(), "1h30m");
    assert!(to_docker_since("").is_err());
    assert!(to_docker_since("nope").is_err());
}
