use config_kit::formats::parse_toml;
use config_kit::merge::{merge_tracked, table_insert};
use config_kit::provenance::{Origin, Provenance};
use config_kit::value::ConfigValue;

fn get<'a>(v: &'a ConfigValue, key: &str) -> Option<&'a ConfigValue> {
    match v {
        ConfigValue::Table(entries) => entries.iter().find(|(k, _)| k == key).map(|(_, x)| x),
        _ => None,
    }
}

fn toml(text: &str) -> ConfigValue {
    parse_toml(text).expect("toml")
}

#[test]
fn merge_tables_deep_and_replace_scalars() {
    let mut base = toml("flag = [1, 2]\n\n[db]\nurl = \"u\"\nport = 1\n");
    let over = toml("flag = 3\n\n[db]\nport = 2\n");
    let origin = Origin::File(String::from("over.toml"));
    let mut provenance = Provenance::new();
    merge_tracked(&mut base, over, &origin, &mut Vec::new(), &mut provenance);
    let db = get(&base, "db").expect("db");
    assert_eq!(get(db, "url"), Some(&ConfigValue::String("u".into())));
    assert_eq!(get(db, "port"), Some(&ConfigValue::Integer(2)));
    assert_eq!(get(&base, "flag"), Some(&ConfigValue::Integer(3)));
    assert!(matches!(provenance.get(&"flag".to_string()), Some(Origin::File(_))));
    assert!(matches!(provenance.get(&"db.port".to_string()), Some(Origin::File(_))));
    assert!(
        provenance.get(&"db.url".to_string()).is_none(),
        "unwritten values have no provenance"
    );
    assert!(
        provenance.get(&"db".to_string()).is_none(),
        "table recursions don't record the parent"
    );
}

#[test]
fn new_keys_are_recorded_where_inserted() {
    let mut base = toml("[db]\nurl = \"u\"\n");
    let over = toml("[db]\npool = 4\n[cache]\nttl = 9\n");
    let mut provenance = Provenance::new();
    let origin = Origin::Overrides;
    merge_tracked(&mut base, over, &origin, &mut Vec::new(), &mut provenance);
    assert_eq!(provenance.get(&"db.pool".to_string()), Some(&Origin::Overrides));
    assert_eq!(provenance.get(&"cache".to_string()), Some(&Origin::Overrides));
    assert!(provenance.get(&"cache.ttl".to_string()).is_none());
    let db = get(&base, "db").expect("db");
    assert_eq!(get(db, "url"), Some(&ConfigValue::String("u".into())));
    assert_eq!(get(db, "pool"), Some(&ConfigValue::Integer(4)));
}

#[test]
fn table_over_scalar_replaces_outright() {
    let mut base = toml("db = true\n");
    let over = toml("[db]\nport = 2\n");
    let mut provenance = Provenance::new();
    merge_tracked(&mut base, over, &Origin::Overrides, &mut Vec::new(), &mut provenance);
    let db = get(&base, "db").expect("db");
    assert_eq!(get(db, "port"), Some(&ConfigValue::Integer(2)));
    assert_eq!(provenance.get(&"db".to_string()), Some(&Origin::Overrides));
}

#[test]
fn later_writer_wins_in_provenance() {
    let mut base = ConfigValue::Table(Vec::new());
    let mut provenance = Provenance::new();
    merge_tracked(
        &mut base,
        toml("port = 1\n"),
        &Origin::File("a.toml".into()),
        &mut Vec::new(),
        &mut provenance,
    );
    merge_tracked(
        &mut base,
        toml("port = 2\n"),
        &Origin::Env { var: "APP_PORT".into() },
        &mut Vec::new(),
        &mut provenance,
    );
    assert_eq!(get(&base, "port"), Some(&ConfigValue::Integer(2)));
    assert_eq!(
        provenance.get(&"port".to_string()),
        Some(&Origin::Env { var: "APP_PORT".into() })
    );
}

#[test]
fn table_insert_replaces_or_appends() {
    let mut t = Vec::new();
    table_insert(&mut t, "a".into(), ConfigValue::Integer(1));
    table_insert(&mut t, "b".into(), ConfigValue::Integer(2));
    table_insert(&mut t, "a".into(), ConfigValue::Integer(3));
    assert_eq!(
        t,
        vec![
            ("a".to_string(), ConfigValue::Integer(3)),
            ("b".to_string(), ConfigValue::Integer(2)),
        ]
    );
}
