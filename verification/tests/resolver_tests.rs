use log_hound::resolver::is_valid_region_format;
use log_hound::resolver::RegionalLogGroup;

#[test]
fn test_parse_with_region() {
    let parsed = RegionalLogGroup::parse("ap-east-2:/aws/app/rails");
    assert_eq!(parsed.region, Some("ap-east-2".to_string()));
    assert_eq!(parsed.log_group, "/aws/app/rails");
}

#[test]
fn test_parse_without_region() {
    let parsed = RegionalLogGroup::parse("/aws/app/rails");
    assert_eq!(parsed.region, None);
    assert_eq!(parsed.log_group, "/aws/app/rails");
}

#[test]
fn test_parse_with_colon_in_log_group() {
    // If something doesn't look like a region, treat whole thing as log group
    let parsed = RegionalLogGroup::parse("my-app:production");
    assert_eq!(parsed.region, None);
    assert_eq!(parsed.log_group, "my-app:production");
}

#[test]
fn test_valid_region_format() {
    assert!(is_valid_region_format("us-east-1"));
    assert!(is_valid_region_format("ap-southeast-2"));
    assert!(is_valid_region_format("ap-northeast-1"));
    assert!(is_valid_region_format("eu-west-1"));

    assert!(!is_valid_region_format("production"));
    assert!(!is_valid_region_format("my-app"));
    assert!(!is_valid_region_format("us-east")); // missing number
}

#[test]
fn test_parse_trims_whitespace() {
    let parsed = RegionalLogGroup::parse("  us-east-1:app/prod  ");
    assert_eq!(parsed.region, Some("us-east-1".to_string()));
    assert_eq!(parsed.log_group, "app/prod");
}

#[test]
fn test_parse_many_keeps_order() {
    let inputs = vec!["us-east-1:a".to_string(), "plain".to_string()];
    let parsed = RegionalLogGroup::parse_many(&inputs);
    assert_eq!(parsed.len(), 2);
    assert_eq!(parsed[0].region, Some("us-east-1".to_string()));
    assert_eq!(parsed[0].log_group, "a");
    assert_eq!(parsed[1].region, None);
    assert_eq!(parsed[1].log_group, "plain");
}

#[test]
fn test_region_number_too_large() {
    // the final segment must be numeric and fit in 32 bits
    assert!(is_valid_region_format("us-east-4294967295"));
    assert!(!is_valid_region_format("us-east-4294967296"));
    assert!(!is_valid_region_format("US-east-1"));
}

#[test]
fn test_region_middle_segments_must_be_lowercase_words() {
    // every segment before the number must be lowercase letters only
    assert!(!is_valid_region_format("us-3ast-1"));
    assert!(!is_valid_region_format("us-EAST-1"));
    assert!(!is_valid_region_format("us--1"));
    assert!(is_valid_region_format("ap-south-east-2"));
    // so such a prefix is part of the resource, not an endpoint
    let parsed = RegionalLogGroup::parse("us-3ast-1:my-group");
    assert_eq!(parsed.region, None);
    assert_eq!(parsed.log_group, "us-3ast-1:my-group");
}
