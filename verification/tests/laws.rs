use config_kit::builder::{
    absorb_layer, finish_load, finish_load_strict, unknown_top_level_keys, DeserializeFailure,
    LayerInput, Merged,
};
use config_kit::env::infer;
use config_kit::formats::parse_toml;
use config_kit::merge::merge_tracked;
use config_kit::provenance::{Origin, PathSegment, Provenance};
use config_kit::text::index_text;
use config_kit::value::ConfigValue;
use config_kit::{ConfigBuilder, ConfigError, ConfigLayer};

fn table(pairs: Vec<(&str, ConfigValue)>) -> ConfigValue {
    ConfigValue::Table(pairs.into_iter().map(|(k, v)| (k.to_string(), v)).collect())
}

fn overrides(pairs: Vec<(&str, ConfigValue)>) -> ConfigLayer {
    ConfigLayer::overrides(pairs.into_iter().map(|(k, v)| (k.to_string(), v)).collect())
}

fn key_path(keys: &[&str]) -> Vec<PathSegment> {
    keys.iter().map(|k| PathSegment::Key { key: (*k).to_string() }).collect()
}

fn blame(merged: &Merged, keys: &[&str]) -> String {
    let failure = DeserializeFailure { path: key_path(keys), message: "invalid type".into() };
    match finish_load::<()>(&merged.provenance, &merged.last_file, Err(failure)) {
        Err(ConfigError::Parse { path, .. }) => path,
        other => panic!("expected a parse error, got {other:?}"),
    }
}

#[test]
fn replaced_table_takes_its_attributions_with_it() {
    let merged = ConfigBuilder::new()
        .layer(overrides(vec![("db", table(vec![("port", ConfigValue::Integer(1))]))]))
        .layer(overrides(vec![("db", table(vec![("port", ConfigValue::Integer(2))]))]))
        .layer(overrides(vec![("db", ConfigValue::String("off".into()))]))
        .layer(ConfigLayer::file("c.toml"))
        .merged(vec![
            LayerInput::Overrides,
            LayerInput::Overrides,
            LayerInput::Overrides,
            LayerInput::File(Ok("[db]\nport = \"bad\"\n".into())),
        ])
        .ok()
        .expect("merge");
    assert_eq!(blame(&merged, &["db", "port"]), "c.toml");
    assert_eq!(blame(&merged, &["db"]), "c.toml");
    assert!(merged.provenance.get(&"db.port".to_string()).is_none());
}

#[test]
fn nested_value_is_blamed_on_the_layer_that_supplied_it() {
    let merged = ConfigBuilder::new()
        .layer(ConfigLayer::file("base.toml"))
        .layer(overrides(vec![(
            "db",
            table(vec![("pool", table(vec![("size", ConfigValue::String("big".into()))]))]),
        )]))
        .layer(ConfigLayer::file("later.toml"))
        .merged(vec![
            LayerInput::File(Ok("[db.pool]\nsize = 4\nidle = 2\n".into())),
            LayerInput::Overrides,
            LayerInput::File(Ok("[db.pool]\nidle = 3\n".into())),
        ])
        .ok()
        .expect("merge");
    assert_eq!(blame(&merged, &["db", "pool", "size"]), "<overrides>");
    assert_eq!(blame(&merged, &["db", "pool", "idle"]), "later.toml");
    assert_eq!(blame(&merged, &["db", "pool", "missing"]), "base.toml");
}

#[test]
fn merge_tracked_drops_attributions_below_a_replaced_value() {
    let mut base = parse_toml("[db]\nport = 0\n").expect("toml");
    let mut provenance = Provenance::new();
    let first = parse_toml("[db]\nport = 1\nhost = \"h\"\n").expect("toml");
    merge_tracked(&mut base, first, &Origin::File("a.toml".into()), &mut Vec::new(), &mut provenance);
    assert_eq!(provenance.get(&"db.port".to_string()), Some(&Origin::File("a.toml".into())));
    assert_eq!(provenance.get(&"db.host".to_string()), Some(&Origin::File("a.toml".into())));
    let second = parse_toml("db = 5\n").expect("toml");
    merge_tracked(&mut base, second, &Origin::Overrides, &mut Vec::new(), &mut provenance);
    assert_eq!(provenance.get(&"db".to_string()), Some(&Origin::Overrides));
    assert!(provenance.get(&"db.port".to_string()).is_none());
    assert!(provenance.get(&"db.host".to_string()).is_none());
}

#[test]
fn merging_a_layer_twice_changes_nothing_more() {
    let over = parse_toml("flag = 3\n[db]\nport = 2\n[db.pool]\nsize = 9\n").expect("toml");
    let mut once = parse_toml("flag = [1]\n[db]\nurl = \"u\"\nport = 1\n").expect("toml");
    let mut provenance = Provenance::new();
    let origin = Origin::Overrides;
    merge_tracked(&mut once, parse_toml("flag = 3\n[db]\nport = 2\n[db.pool]\nsize = 9\n").expect("toml"), &origin, &mut Vec::new(), &mut provenance);
    let mut twice = parse_toml("flag = [1]\n[db]\nurl = \"u\"\nport = 1\n").expect("toml");
    merge_tracked(&mut twice, parse_toml("flag = 3\n[db]\nport = 2\n[db.pool]\nsize = 9\n").expect("toml"), &origin, &mut Vec::new(), &mut provenance);
    merge_tracked(&mut twice, over, &origin, &mut Vec::new(), &mut provenance);
    assert_eq!(once, twice);
}

#[test]
fn adding_a_layer_merges_it_into_the_earlier_result() {
    let before = ConfigBuilder::new()
        .layer(ConfigLayer::file("a.toml"))
        .merged(vec![LayerInput::File(Ok("[db]\nurl = \"u\"\nport = 1\n".into()))])
        .ok()
        .expect("merge");
    let after = ConfigBuilder::new()
        .layer(ConfigLayer::file("a.toml"))
        .layer(ConfigLayer::env_prefix("APP_"))
        .merged(vec![
            LayerInput::File(Ok("[db]\nurl = \"u\"\nport = 1\n".into())),
            LayerInput::Env(vec![config_kit::env::EnvEntry {
                key: Some("APP_DB".into()),
                value: Ok("on".into()),
                float_bits: None,
            }]),
        ])
        .ok()
        .expect("merge");
    assert!(matches!(before.value, ConfigValue::Table(ref t) if t.len() == 1));
    assert_eq!(after.value, table(vec![("db", ConfigValue::String("on".into()))]));
}

#[test]
fn layers_absorb_one_at_a_time() {
    let mut acc = Merged::start();
    assert_eq!(acc.value, ConfigValue::Table(Vec::new()));
    let first = absorb_layer(&mut acc, ConfigLayer::file("a.toml"), LayerInput::File(Ok("port = 1\n".into())));
    assert!(first.is_ok());
    assert_eq!(acc.last_file, Some("a.toml".to_string()));
    let failed = absorb_layer(&mut acc, ConfigLayer::file("b.toml"), LayerInput::File(Err("gone".into())));
    assert!(matches!(failed, Err(ConfigError::Io { ref path, .. }) if path == "b.toml"));
    assert_eq!(acc.value, table(vec![("port", ConfigValue::Integer(1))]));
    assert_eq!(acc.last_file, Some("a.toml".to_string()));
}

#[test]
fn into_layers_keeps_the_order_added() {
    let layers = ConfigBuilder::new()
        .layer(ConfigLayer::file("a.toml"))
        .layer(ConfigLayer::env_prefix("APP_"))
        .into_layers();
    assert_eq!(layers, vec![ConfigLayer::file("a.toml"), ConfigLayer::env_prefix("APP_")]);
}

#[test]
fn override_keys_given_twice_keep_the_later_value() {
    let layer = ConfigLayer::overrides(vec![
        ("a".to_string(), ConfigValue::Integer(1)),
        ("b".to_string(), table(vec![("x", ConfigValue::Integer(1)), ("x", ConfigValue::Integer(2))])),
        ("a".to_string(), ConfigValue::Integer(3)),
    ]);
    assert_eq!(
        layer,
        ConfigLayer::Overrides(vec![
            ("a".to_string(), ConfigValue::Integer(3)),
            ("b".to_string(), table(vec![("x", ConfigValue::Integer(2))])),
        ])
    );
}

#[test]
fn printed_integers_and_booleans_read_back() {
    for n in [0i64, 7, -7, 8080, i64::MAX, i64::MIN] {
        assert_eq!(infer(&n.to_string(), n.to_string().parse::<f64>().ok().map(f64::to_bits)), ConfigValue::Integer(n));
    }
    for b in [true, false] {
        assert_eq!(infer(&b.to_string(), None), ConfigValue::Boolean(b));
    }
}

#[test]
fn index_text_is_the_decimal_numeral() {
    assert_eq!(index_text(0), "0");
    assert_eq!(index_text(9), "9");
    assert_eq!(index_text(10), "10");
    assert_eq!(index_text(1234567), "1234567");
    assert_eq!(index_text(usize::MAX), usize::MAX.to_string());
}

#[test]
fn only_top_level_ignored_keys_are_unknown() {
    let ignored = vec![
        key_path(&["extra"]),
        key_path(&["db", "nested_extra"]),
        vec![PathSegment::Unknown, PathSegment::Key { key: "wrapped".into() }],
        key_path(&["another"]),
        vec![PathSegment::Index { index: 0 }],
    ];
    assert_eq!(unknown_top_level_keys(&ignored), vec!["extra".to_string(), "another".to_string()]);
}

#[test]
fn strict_load_agrees_with_plain_load() {
    let provenance = Provenance::new();
    let last = Some("a.toml".to_string());
    let plain = finish_load(&provenance, &last, Ok(5u8));
    let strict = finish_load_strict(&provenance, &last, Ok(5u8), Vec::new());
    assert_eq!(plain.ok(), strict.ok());
    let strict = finish_load_strict(&provenance, &last, Ok(5u8), vec!["zz".into(), "aa".into(), "zz".into()]);
    assert!(matches!(strict, Err(ConfigError::UnknownFields { ref keys }) if keys == &vec!["aa".to_string(), "zz".to_string()]));
    let failure = || DeserializeFailure { path: key_path(&["port"]), message: "bad".into() };
    let plain = finish_load::<u8>(&provenance, &last, Err(failure())).err().expect("plain");
    let strict = finish_load_strict::<u8>(&provenance, &last, Err(failure()), vec!["x".into()]).err().expect("strict");
    assert_eq!(plain, strict);
}

#[test]
fn dotted_keys_name_nested_paths() {
    let mut base = ConfigValue::Table(Vec::new());
    let mut provenance = Provenance::new();
    let over = parse_toml("[a.b]\nc = 1\n").expect("toml");
    merge_tracked(&mut base, over, &Origin::Overrides, &mut Vec::new(), &mut provenance);
    assert_eq!(provenance.get(&"a".to_string()), Some(&Origin::Overrides));
    assert!(provenance.get(&"a.b".to_string()).is_none());
    assert!(provenance.get(&"a.b.c".to_string()).is_none());
    assert!(provenance.get(&"".to_string()).is_none());
}

#[test]
fn builder_layers_and_values_clone() {
    let value = parse_toml("a = [1, 2.5]\n[b]\nc = \"x\"\n").expect("toml");
    assert_eq!(value.clone(), value);
    let layer = ConfigLayer::overrides(vec![("k".to_string(), value.clone())]);
    assert_eq!(layer.clone(), layer);
    let builder = ConfigBuilder::new().layer(ConfigLayer::file("a.toml")).layer(layer);
    let copy = builder.clone();
    assert_eq!(copy.layers(), builder.layers());
    assert!(format!("{builder:?}").contains("a.toml"));
}

#[test]
fn file_layers_read_the_path_itself() {
    let layer = ConfigLayer::file("dir/app.json");
    assert!(matches!(&layer, ConfigLayer::File(text, path) if text == "dir/app.json" && path == std::path::Path::new("dir/app.json")));
}
