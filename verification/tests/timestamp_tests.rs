use log_hound::timefmt::epoch_ms_to_secs;
use log_hound::timefmt::parse_cloudwatch_timestamp;
use log_hound::timefmt::parse_datetime;
use log_hound::timefmt::parse_docker_timestamp;
use log_hound::timefmt::TimeError;
use log_hound::timefmt::TimeRange;

#[test]
fn test_parse_docker_timestamp() {
    // Standard container-runtime format
    let ts = parse_docker_timestamp("2026-01-31T12:34:56.789012345Z");
    assert!(ts.is_some());

    // Short format
    let ts = parse_docker_timestamp("2026-01-31T12:34:56Z");
    assert!(ts.is_some());
}

#[test]
fn test_docker_timestamp_values() {
    assert_eq!(parse_docker_timestamp("2026-01-31T12:34:56Z"), Some(1769862896000));
    assert_eq!(parse_docker_timestamp("2026-01-31T12:34:56.789012345Z"), Some(1769862896789));
    assert_eq!(parse_docker_timestamp("1970-01-01T00:00:01Z"), Some(1000));
    assert_eq!(parse_docker_timestamp("not a time"), None);
}

#[test]
fn test_cloudwatch_timestamp_values() {
    assert_eq!(parse_cloudwatch_timestamp("2026-01-23 05:36:05"), Some(1769146565000));
    assert_eq!(parse_cloudwatch_timestamp("2026-01-23 05:36:05.200"), Some(1769146565200));
    assert_eq!(parse_cloudwatch_timestamp("1970-01-01 00:00:01.500"), Some(1500));
    assert_eq!(parse_cloudwatch_timestamp("garbage"), None);
}

#[test]
fn test_parse_datetime_formats() {
    assert_eq!(parse_datetime("2026-01-23 05:36:05"), Some(1769146565000));
    assert_eq!(parse_datetime("2026-01-23"), Some(1769126400000));
    assert_eq!(parse_datetime("2026-01-23T05:36:05Z"), Some(1769146565000));
    assert_eq!(parse_datetime("nonsense"), None);
}

#[test]
fn test_time_range_explicit() {
    let tr = TimeRange::from_explicit("2026-01-23", Some("2026-01-23 05:36:05")).unwrap();
    assert_eq!(tr.start, 1769126400000);
    assert_eq!(tr.end, 1769146565000);
    let err = TimeRange::from_explicit("junk", None).unwrap_err();
    assert_eq!(err, TimeError::UnparsableDateTime);
    // a window may not end before it starts
    let err = TimeRange::from_explicit("2026-01-23 05:36:05", Some("2026-01-23")).unwrap_err();
    assert_eq!(err, TimeError::EndBeforeStart);
}

#[test]
fn test_time_range_relative() {
    let tr = TimeRange::from_relative("1h").unwrap();
    assert_eq!(tr.end - tr.start, 3600 * 1000);
    let err = TimeRange::from_relative("").unwrap_err();
    assert_eq!(err, TimeError::EmptyDuration);
    let err = TimeRange::from_relative("bogus").unwrap_err();
    assert_eq!(err, TimeError::UnrecognizedDuration);
}

#[test]
fn test_epoch_ms_to_secs() {
    assert_eq!(epoch_ms_to_secs(1999), 1);
    assert_eq!(epoch_ms_to_secs(0), 0);
    assert_eq!(epoch_ms_to_secs(-1), -1);
    assert_eq!(epoch_ms_to_secs(-1000), -1);
    assert_eq!(epoch_ms_to_secs(-1001), -2);
}
