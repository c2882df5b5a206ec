use config_kit::ConfigError;

#[test]
fn display_is_informative() {
    let io = ConfigError::Io { path: "/etc/app.toml".into(), message: "missing".into() };
    assert!(io.to_string().contains("/etc/app.toml"));
    assert!(io.to_string().contains("missing"));

    let parse = ConfigError::Parse { path: "cfg.toml".into(), message: "expected `=`".into() };
    assert_eq!(parse.to_string(), "failed to parse config file cfg.toml: expected `=`");

    let merged = ConfigError::Parse { path: String::new(), message: "invalid type".into() };
    assert!(merged.to_string().contains("(merged)"));
    assert!(merged.to_string().contains("invalid type"));

    let unknown = ConfigError::UnknownFields { keys: vec!["typo_a".into(), "typo_b".into()] };
    assert_eq!(unknown.to_string(), "unknown top-level configuration keys: typo_a, typo_b");

    let env = ConfigError::EnvVar {
        key: "APP_TOKEN".into(),
        message: "environment variable not found".into(),
    };
    assert!(env.to_string().contains("APP_TOKEN"));

    let watch = ConfigError::WatchFailed { message: "inotify limit reached".into() };
    assert!(watch.to_string().contains("inotify limit reached"));

    assert_eq!(
        ConfigError::Poisoned.to_string(),
        "config watcher lock poisoned; watcher state is unusable"
    );
}

#[test]
fn parse_path_collapses_empty() {
    assert_eq!(ConfigError::parse_path(""), "(merged)");
    assert_eq!(ConfigError::parse_path("a.toml"), "a.toml");
    assert_eq!(
        ConfigError::Io { path: "x".into(), message: "m".into() }.to_string(),
        "failed to read config file x: m"
    );
    assert_eq!(
        ConfigError::EnvVar { key: "K".into(), message: "m".into() }.to_string(),
        "environment variable `K` is not valid Unicode: m"
    );
}
