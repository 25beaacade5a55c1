use log_hound::config::Config;
use log_hound::config::Preset;

fn preset(groups: Vec<&str>) -> Preset {
    Preset {
        groups: groups.into_iter().map(|s| s.to_string()).collect(),
        patterns: vec![],
        exclude: vec![],
        time_range: None,
        limit: None,
        description: None,
    }
}

#[test]
fn test_get_preset() {
    let mut config = Config::empty();
    config.presets.push(("prod".to_string(), preset(vec!["app/production"])));
    config.presets.push(("staging".to_string(), preset(vec!["app/staging"])));
    let p = config.get_preset("prod").unwrap();
    assert_eq!(p.groups, vec!["app/production".to_string()]);
    assert!(config.get_preset("missing").is_none());
}

#[test]
fn test_list_presets() {
    let mut config = Config::empty();
    assert!(config.list_presets().is_empty());
    config.presets.push(("a".to_string(), preset(vec!["g"])));
    let listed = config.list_presets();
    assert_eq!(listed.len(), 1);
    assert_eq!(listed[0].0, "a");
}

#[test]
fn test_create_sample() {
    let sample = Config::create_sample();
    assert!(sample.contains("default_time_range"));
    assert!(sample.contains("[presets.prod]"));
}
