use config_kit::builder::{
    finish_load, finish_load_strict, unknown_top_level_keys, DeserializeFailure, LayerInput, Merged,
};
use config_kit::env::EnvEntry;
use config_kit::provenance::PathSegment;
use config_kit::value::ConfigValue;
use config_kit::{ConfigBuilder, ConfigError, ConfigLayer, Empty, Ready};

fn get<'a>(v: &'a ConfigValue, key: &str) -> Option<&'a ConfigValue> {
    match v {
        ConfigValue::Table(entries) => entries.iter().find(|(k, _)| k == key).map(|(_, x)| x),
        _ => None,
    }
}

fn env(pairs: &[(&str, &str)]) -> LayerInput {
    LayerInput::Env(
        pairs
            .iter()
            .map(|(k, v)| EnvEntry {
                key: Some((*k).to_string()),
                value: Ok((*v).to_string()),
                float_bits: v.parse::<f64>().ok().map(f64::to_bits),
            })
            .collect(),
    )
}

fn file(text: &str) -> LayerInput {
    LayerInput::File(Ok(text.to_string()))
}

fn overrides(pairs: Vec<(&str, ConfigValue)>) -> ConfigLayer {
    ConfigLayer::overrides(pairs.into_iter().map(|(k, v)| (k.to_string(), v)).collect())
}

fn failure_at(key: &str) -> DeserializeFailure {
    DeserializeFailure {
        path: vec![PathSegment::Key { key: key.to_string() }],
        message: "invalid type: string \"not-a-number\", expected u16".to_string(),
    }
}

fn blamed(merged: &Merged, key: &str) -> ConfigError {
    finish_load::<()>(&merged.provenance, &merged.last_file, Err(failure_at(key)))
        .err()
        .expect("failure")
}

#[test]
fn reexports_are_wired() {
    let builder: ConfigBuilder<Empty> = ConfigBuilder::new();
    let ready: ConfigBuilder<Ready> = builder.layer(ConfigLayer::env_prefix("CKIT_WIRING_"));
    assert_eq!(ready.layers().len(), 1);
}

#[test]
fn env_type_mismatch_is_attributed_to_the_env_var() {
    let prefix = "CKIT_ATTR_ENV_";
    let merged = ConfigBuilder::new()
        .layer(ConfigLayer::file("/tmp/base.toml"))
        .layer(ConfigLayer::env_prefix(prefix))
        .merged(vec![file("port = 1\n"), env(&[("CKIT_ATTR_ENV_PORT", "not-a-number")])])
        .ok()
        .expect("merge");
    let rendered = blamed(&merged, "port").to_string();
    assert!(rendered.contains(&format!("<env:{prefix}PORT>")), "got: {rendered}");
    assert!(!rendered.contains("base.toml"), "got: {rendered}");
}

#[test]
fn file_type_mismatch_is_attributed_to_its_file() {
    let merged = ConfigBuilder::new()
        .layer(ConfigLayer::file("/tmp/base.toml"))
        .layer(ConfigLayer::file("/tmp/other.toml"))
        .merged(vec![file("port = \"not-a-number\"\n"), file("region = \"eu\"\n")])
        .ok()
        .expect("merge");
    let rendered = blamed(&merged, "port").to_string();
    assert!(rendered.contains("base.toml"), "got: {rendered}");
    assert!(!rendered.contains("other.toml"), "got: {rendered}");
}

#[test]
fn override_type_mismatch_is_attributed_to_overrides() {
    let merged = ConfigBuilder::new()
        .layer(ConfigLayer::file("/tmp/base.toml"))
        .layer(overrides(vec![("port", ConfigValue::String("not-a-number".into()))]))
        .merged(vec![file("port = 1\n"), LayerInput::Overrides])
        .ok()
        .expect("merge");
    let error = blamed(&merged, "port");
    assert!(error.to_string().contains("<overrides>"), "got: {}", error.to_string());
}

#[test]
fn unattributed_failure_falls_back_to_last_file() {
    let merged = ConfigBuilder::new()
        .layer(ConfigLayer::file("/tmp/a.toml"))
        .layer(ConfigLayer::file("/tmp/b.toml"))
        .merged(vec![file("x = 1\n"), file("y = 2\n")])
        .ok()
        .expect("merge");
    let error = blamed(&merged, "missing_field");
    assert!(matches!(&error, ConfigError::Parse { path, .. } if path == "/tmp/b.toml"));
    let merged = ConfigBuilder::new()
        .layer(overrides(vec![]))
        .merged(vec![LayerInput::Overrides])
        .ok()
        .expect("merge");
    let error = blamed(&merged, "missing_field");
    assert!(matches!(&error, ConfigError::Parse { path, .. } if path.is_empty()));
    assert!(error.to_string().contains("(merged)"));
}

#[test]
fn nested_failure_is_attributed_to_nearest_recorded_path() {
    let mut db = Vec::new();
    db.push(("port".to_string(), ConfigValue::String("x".into())));
    let merged = ConfigBuilder::new()
        .layer(ConfigLayer::file("/tmp/db.toml"))
        .layer(overrides(vec![("db", ConfigValue::Table(db))]))
        .merged(vec![file("[db]\nurl = \"u\"\nport = 1\n"), LayerInput::Overrides])
        .ok()
        .expect("merge");
    let failure = DeserializeFailure {
        path: vec![
            PathSegment::Key { key: "db".into() },
            PathSegment::Key { key: "port".into() },
        ],
        message: "invalid type".into(),
    };
    let error = finish_load::<()>(&merged.provenance, &merged.last_file, Err(failure)).err().expect("e");
    assert!(matches!(&error, ConfigError::Parse { path, .. } if path == "<overrides>"));
    let failure = DeserializeFailure {
        path: vec![
            PathSegment::Key { key: "db".into() },
            PathSegment::Key { key: "url".into() },
        ],
        message: "invalid type".into(),
    };
    let error = finish_load::<()>(&merged.provenance, &merged.last_file, Err(failure)).err().expect("e");
    assert!(matches!(&error, ConfigError::Parse { path, .. } if path == "/tmp/db.toml"));
}

#[test]
fn precedence_overrides_beat_env_beat_file() {
    let prefix = "CKIT_PRECEDENCE_";
    let merged = ConfigBuilder::new()
        .layer(ConfigLayer::file("/tmp/service.toml"))
        .layer(ConfigLayer::env_prefix(prefix))
        .layer(overrides(vec![
            ("region", ConfigValue::String("override".into())),
            ("port", ConfigValue::Integer(3000)),
        ]))
        .merged(vec![
            file("region = \"file\"\nport = 1000\n"),
            env(&[("CKIT_PRECEDENCE_REGION", "env"), ("CKIT_PRECEDENCE_PORT", "2000")]),
            LayerInput::Overrides,
        ])
        .ok()
        .expect("layered load");
    assert_eq!(get(&merged.value, "region"), Some(&ConfigValue::String("override".into())));
    assert_eq!(get(&merged.value, "port"), Some(&ConfigValue::Integer(3000)));
}

#[test]
fn env_beats_file_without_overrides() {
    let merged = ConfigBuilder::new()
        .layer(ConfigLayer::file("/tmp/service.toml"))
        .layer(ConfigLayer::env_prefix("CKIT_ENV_OVER_FILE_"))
        .merged(vec![
            file("region = \"file\"\nport = 1000\n"),
            env(&[("CKIT_ENV_OVER_FILE_PORT", "2000")]),
        ])
        .ok()
        .expect("layered load");
    assert_eq!(get(&merged.value, "region"), Some(&ConfigValue::String("file".into())));
    assert_eq!(get(&merged.value, "port"), Some(&ConfigValue::Integer(2000)));
}

#[test]
fn deep_merge_preserves_sibling_keys() {
    let db_over = vec![("port".to_string(), ConfigValue::Integer(6543))];
    let merged = ConfigBuilder::new()
        .layer(ConfigLayer::file("/tmp/db.toml"))
        .layer(overrides(vec![
            ("db", ConfigValue::Table(db_over)),
            ("flag", ConfigValue::Integer(9)),
        ]))
        .merged(vec![
            file("[db]\nurl = \"postgres://base\"\nport = 5432\n\nflag = [1, 2]\n"),
            LayerInput::Overrides,
        ])
        .ok()
        .expect("merged load");
    let db = get(&merged.value, "db").expect("db");
    assert_eq!(get(db, "url"), Some(&ConfigValue::String("postgres://base".into())));
    assert_eq!(get(db, "port"), Some(&ConfigValue::Integer(6543)));
    assert_eq!(get(&merged.value, "flag"), Some(&ConfigValue::Integer(9)));
}

#[test]
fn missing_file_is_io_error() {
    let error = ConfigBuilder::new()
        .layer(ConfigLayer::file("/nonexistent/ckit/service.toml"))
        .merged(vec![LayerInput::File(Err("No such file or directory (os error 2)".into()))])
        .err()
        .expect("missing file");
    assert!(
        matches!(error, ConfigError::Io { .. } if error.to_string().contains("service.toml")),
        "{:?}",
        error
    );
}

#[test]
fn malformed_file_is_parse_error() {
    let error = ConfigBuilder::new()
        .layer(ConfigLayer::file("/tmp/broken.toml"))
        .merged(vec![file("port = 1000\nregion =\nbroken")])
        .err()
        .expect("malformed file");
    assert!(matches!(error, ConfigError::Parse { .. }), "{:?}", error);
    assert!(error.to_string().contains("broken.toml"));
}

#[test]
fn first_failing_layer_stops_the_merge() {
    let error = ConfigBuilder::new()
        .layer(ConfigLayer::file("/tmp/a.toml"))
        .layer(ConfigLayer::file("/tmp/b.toml"))
        .merged(vec![file("x ="), LayerInput::File(Err("gone".into()))])
        .err()
        .expect("error");
    assert!(matches!(&error, ConfigError::Parse { path, .. } if path == "/tmp/a.toml"));
}

#[test]
fn strict_load_reports_unknown_top_level_keys() {
    let merged = ConfigBuilder::new()
        .layer(ConfigLayer::file("/tmp/strict.toml"))
        .merged(vec![file("typo_b = 1\ntypo_a = 2\n\n[db]\nurl = \"postgres://x\"\nport = 1\n")])
        .ok()
        .expect("merge");
    let unknown = vec!["typo_b".to_string(), "typo_a".to_string(), "typo_b".to_string()];
    let error = finish_load_strict(&merged.provenance, &merged.last_file, Ok(()), unknown)
        .err()
        .expect("unknown keys");
    assert!(
        matches!(&error, ConfigError::UnknownFields { keys }
            if keys == &["typo_a".to_owned(), "typo_b".to_owned()]),
        "{:?}",
        error
    );
}

#[test]
fn strict_load_passes_clean_configuration() {
    let merged = ConfigBuilder::new()
        .layer(ConfigLayer::file("/tmp/clean.toml"))
        .merged(vec![file("[db]\nurl = \"postgres://x\"\nport = 1\n")])
        .ok()
        .expect("merge");
    let settings = finish_load_strict(&merged.provenance, &merged.last_file, Ok(7u8), Vec::new());
    assert_eq!(settings.ok(), Some(7u8));
}

#[test]
fn strict_denial_is_top_level_only() {
    let merged = ConfigBuilder::new()
        .layer(ConfigLayer::file("/tmp/nested.toml"))
        .merged(vec![file("[db]\nurl = \"postgres://x\"\nport = 1\nrogue_nested = true\n")])
        .ok()
        .expect("merge");
    // Deserializing into the settings type ignores `db.rogue_nested`.
    let ignored = vec![vec![
        PathSegment::Key { key: "db".to_string() },
        PathSegment::Key { key: "rogue_nested".to_string() },
    ]];
    let unknown = unknown_top_level_keys(&ignored);
    let port = finish_load_strict(&merged.provenance, &merged.last_file, Ok(1u16), unknown)
        .ok()
        .expect("nested unknowns are not top-level");
    assert_eq!(port, 1);
}

#[test]
fn strict_denial_covers_env_and_override_keys() {
    let prefix = "CKIT_STRICT_ENV_";
    let merged = ConfigBuilder::new()
        .layer(ConfigLayer::env_prefix(prefix))
        .merged(vec![env(&[
            ("CKIT_STRICT_ENV_DB_URL", "postgres://x"),
            ("CKIT_STRICT_ENV_DB_PORT", "1"),
            ("CKIT_STRICT_ENV_SURPLUS", "1"),
        ])])
        .ok()
        .expect("merge");
    // Deserializing into `{ db_url, db_port }` ignores the top-level `surplus`.
    let ignored = vec![vec![PathSegment::Key { key: "surplus".to_string() }]];
    let error = finish_load_strict(&merged.provenance, &merged.last_file, Ok(()), unknown_top_level_keys(&ignored))
        .err()
        .expect("surplus env key");
    assert!(
        matches!(&error, ConfigError::UnknownFields { keys } if keys == &["surplus".to_owned()]),
        "{:?}",
        error
    );

    let mut over = Vec::new();
    over.push(("db".to_string(), ConfigValue::Boolean(true)));
    let merged = ConfigBuilder::new()
        .layer(ConfigLayer::overrides(over))
        .merged(vec![LayerInput::Overrides])
        .ok()
        .expect("merge");
    let error = finish_load_strict::<()>(&merged.provenance, &merged.last_file, Err(failure_at("db")), Vec::new())
        .err()
        .expect("override replaces the db table");
    assert!(matches!(error, ConfigError::Parse { .. }), "{:?}", error);
    assert!(error.to_string().contains("<overrides>"));
}

#[test]
fn strict_parse_error_wins_over_unknown_keys() {
    let mut over = Vec::new();
    over.push(("db".to_string(), ConfigValue::Boolean(true)));
    let merged = ConfigBuilder::new()
        .layer(ConfigLayer::overrides(over))
        .merged(vec![LayerInput::Overrides])
        .ok()
        .expect("merge");
    let error = finish_load_strict::<()>(
        &merged.provenance,
        &merged.last_file,
        Err(failure_at("db")),
        vec!["surplus".to_string()],
    )
    .err()
    .expect("parse error");
    assert!(matches!(error, ConfigError::Parse { .. }), "{:?}", error);
    assert!(error.to_string().contains("<overrides>"));
}

#[test]
fn env_values_are_typed_via_inference() {
    let merged = ConfigBuilder::new()
        .layer(ConfigLayer::env_prefix("CKIT_TYPED_"))
        .merged(vec![env(&[
            ("CKIT_TYPED_PORT", "8080"),
            ("CKIT_TYPED_DEBUG", "true"),
            ("CKIT_TYPED_RATIO", "0.5"),
            ("CKIT_TYPED_NAME", "svc"),
        ])])
        .ok()
        .expect("typed env load");
    assert_eq!(get(&merged.value, "port"), Some(&ConfigValue::Integer(8080)));
    assert_eq!(get(&merged.value, "debug"), Some(&ConfigValue::Boolean(true)));
    assert_eq!(get(&merged.value, "ratio"), Some(&ConfigValue::Float(0.5f64.to_bits())));
    assert_eq!(get(&merged.value, "name"), Some(&ConfigValue::String("svc".into())));
}

#[test]
fn non_unicode_env_value_is_envvar_error() {
    let prefix = "CKIT_NONUNICODE_";
    let error = ConfigBuilder::new()
        .layer(ConfigLayer::env_prefix(prefix))
        .merged(vec![LayerInput::Env(vec![EnvEntry {
            key: Some(format!("{prefix}TOKEN")),
            value: Err("\"\\xFF\\xFE\"".into()),
            float_bits: None,
        }])])
        .err()
        .expect("non-unicode env value");
    assert!(
        matches!(&error, ConfigError::EnvVar { key, .. } if key == &format!("{prefix}TOKEN")),
        "{:?}",
        error
    );
}

#[test]
fn json_layers_load_by_extension() {
    let merged = ConfigBuilder::new()
        .layer(ConfigLayer::file("/tmp/service.json"))
        .merged(vec![file(r#"{"region": "json", "port": 4}"#)])
        .ok()
        .expect("json load");
    assert_eq!(get(&merged.value, "region"), Some(&ConfigValue::String("json".into())));
    assert_eq!(get(&merged.value, "port"), Some(&ConfigValue::Integer(4)));
}

#[test]
fn yaml_layers_load_by_extension() {
    let merged = ConfigBuilder::new()
        .layer(ConfigLayer::file("/tmp/service.yaml"))
        .merged(vec![file("region: yaml\nport: 5\n")])
        .ok()
        .expect("yaml load");
    assert_eq!(get(&merged.value, "region"), Some(&ConfigValue::String("yaml".into())));
    assert_eq!(get(&merged.value, "port"), Some(&ConfigValue::Integer(5)));
}

#[test]
fn files_without_extension_default_to_toml() {
    let merged = ConfigBuilder::new()
        .layer(ConfigLayer::file("/tmp/defaults"))
        .merged(vec![file("region = \"toml\"\nport = 6\n")])
        .ok()
        .expect("toml default load");
    assert_eq!(get(&merged.value, "region"), Some(&ConfigValue::String("toml".into())));
}

#[test]
fn index_segments_read_as_decimal() {
    let merged = ConfigBuilder::new()
        .layer(ConfigLayer::file("/tmp/a.toml"))
        .merged(vec![file("x = 1\n")])
        .ok()
        .expect("merge");
    let failure = DeserializeFailure {
        path: vec![PathSegment::Key { key: "x".into() }, PathSegment::Index { index: 12 }],
        message: "m".into(),
    };
    let error = finish_load::<()>(&merged.provenance, &merged.last_file, Err(failure)).err().expect("e");
    assert!(matches!(&error, ConfigError::Parse { path, .. } if path == "/tmp/a.toml"));
    assert_eq!(config_kit::provenance::segment_string(&PathSegment::Index { index: 12 }), "12");
    assert_eq!(config_kit::provenance::segment_string(&PathSegment::Unknown), "?");
}
