use log_hound::deploy::deploy_destination;
use log_hound::deploy::merge_raw_configs;
use log_hound::deploy::parse_deploy_text;
use log_hound::deploy::DeployConfigError;
use log_hound::deploy::KamalConfig;

#[test]
fn test_parse_simple_servers() {
    let yaml = r#"
service: my-app
servers:
  - host1.example.com
  - host2.example.com
"#;
    let config = KamalConfig::parse(yaml).unwrap();
    assert_eq!(config.service, "my-app");
    assert_eq!(config.servers, vec!["host1.example.com", "host2.example.com"]);
    assert_eq!(config.ssh_user, "root");
}

#[test]
fn test_parse_role_based_servers_kamal2() {
    let yaml = r#"
service: my-app
servers:
  web:
    - web1.example.com
  job:
    - job1.example.com
ssh:
  user: deploy
"#;
    let config = KamalConfig::parse(yaml).unwrap();
    assert_eq!(config.service, "my-app");
    assert!(config.servers.contains(&"web1.example.com".to_string()));
    assert!(config.servers.contains(&"job1.example.com".to_string()));
    assert_eq!(config.ssh_user, "deploy");
}

#[test]
fn test_parse_role_based_servers_kamal1() {
    // role-based format with hosts under each role
    let yaml = r#"
service: foundation
servers:
  web:
    hosts:
      - 35.74.156.92
    labels:
      traefik.http.routers.foundation-web.rule: Host(`example.com`)
  job:
    hosts:
      - 35.74.156.92
    cmd: bundle exec sidekiq
ssh:
  user: apps
"#;
    let config = KamalConfig::parse(yaml).unwrap();
    assert_eq!(config.service, "foundation");
    assert!(config.servers.contains(&"35.74.156.92".to_string()));
    assert_eq!(config.ssh_user, "apps");
}

#[test]
fn test_duplicate_servers_collapse() {
    let yaml = "service: app\nservers:\n  web:\n    - h1\n  job:\n    - h1\n    - h2\n";
    let config = KamalConfig::parse(yaml).unwrap();
    assert_eq!(config.servers, vec!["h1".to_string(), "h2".to_string()]);
}

#[test]
fn test_web_role_comes_first() {
    let yaml = "service: app\nservers:\n  job:\n    - j1\n  web:\n    - w1\n";
    let config = KamalConfig::parse(yaml).unwrap();
    assert_eq!(config.servers, vec!["w1".to_string(), "j1".to_string()]);
}

#[test]
fn test_missing_service() {
    let err = KamalConfig::parse("servers:\n  - h1\n").unwrap_err();
    assert_eq!(err, DeployConfigError::MissingService);
}

#[test]
fn test_missing_servers() {
    let err = KamalConfig::parse("service: app\n").unwrap_err();
    assert_eq!(err, DeployConfigError::MissingServers);
}

#[test]
fn test_empty_servers() {
    let err = KamalConfig::parse("service: app\nservers:\n").unwrap_err();
    assert_eq!(err, DeployConfigError::NoServers);
    assert!(err.message().contains("No servers"));
}

#[test]
fn test_comments_and_quotes() {
    let yaml = "# a deploy file\nservice: \"my-app\"\nservers:\n  - 'h1'\n";
    let config = KamalConfig::parse(yaml).unwrap();
    assert_eq!(config.service, "my-app");
    assert_eq!(config.servers, vec!["h1".to_string()]);
}

#[test]
fn test_container_pattern() {
    let yaml = "service: my-app\nservers:\n  - h1\n";
    let config = KamalConfig::parse(yaml).unwrap();
    assert_eq!(config.container_pattern(), "my-app*");
}

#[test]
fn test_deploy_destination() {
    assert_eq!(deploy_destination("deploy.yml"), None);
    assert_eq!(deploy_destination("deploy.staging.yml"), Some("staging".to_string()));
    assert_eq!(deploy_destination("other.yml"), None);
}

#[test]
fn test_merge_env_overrides_base() {
    let env = parse_deploy_text("service: env-app\n");
    let base = parse_deploy_text("service: base-app\nservers:\n  - b1\nssh:\n  user: carol\n");
    let merged = merge_raw_configs(env, base);
    let config = KamalConfig::from_yaml(merged, Some("staging".to_string())).unwrap();
    assert_eq!(config.service, "env-app");
    assert_eq!(config.servers, vec!["b1".to_string()]);
    assert_eq!(config.ssh_user, "carol");
    assert_eq!(config.destination, Some("staging".to_string()));
}
