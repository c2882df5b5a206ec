use config_kit::formats::{format_for, parse_by_extension, read_layer_value, Format};
use config_kit::value::ConfigValue;
use config_kit::ConfigError;

fn get<'a>(v: &'a ConfigValue, key: &str) -> Option<&'a ConfigValue> {
    match v {
        ConfigValue::Table(entries) => entries.iter().find(|(k, _)| k == key).map(|(_, x)| x),
        _ => None,
    }
}

#[test]
fn parse_by_extension_detects_formats() {
    let toml_val = parse_by_extension(&"a.toml".to_string(), "x = 1").expect("toml");
    assert_eq!(get(&toml_val, "x"), Some(&ConfigValue::Integer(1)));
    let no_ext = parse_by_extension(&"defaults".to_string(), "x = 1").expect("toml default");
    assert_eq!(get(&no_ext, "x"), Some(&ConfigValue::Integer(1)));
    let upper = parse_by_extension(&"b.TOML".to_string(), "x = 2").expect("case-insensitive");
    assert_eq!(get(&upper, "x"), Some(&ConfigValue::Integer(2)));
}

#[test]
fn parse_by_extension_json() {
    let val = parse_by_extension(&"a.json".to_string(), "{\"x\": 1}").expect("json");
    assert_eq!(get(&val, "x"), Some(&ConfigValue::Integer(1)));
}

#[test]
fn parse_by_extension_yaml() {
    let val = parse_by_extension(&"a.yaml".to_string(), "x: 1").expect("yaml");
    assert_eq!(get(&val, "x"), Some(&ConfigValue::Integer(1)));
    let val = parse_by_extension(&"a.yml".to_string(), "x: 2").expect("yml");
    assert_eq!(get(&val, "x"), Some(&ConfigValue::Integer(2)));
}

#[test]
fn format_is_picked_by_extension() {
    assert_eq!(format_for("cfg/app.json"), Format::Json);
    assert_eq!(format_for("app.JsOn"), Format::Json);
    assert_eq!(format_for("app.Yml"), Format::Yaml);
    assert_eq!(format_for("app.yaml"), Format::Yaml);
    assert_eq!(format_for("app.ini"), Format::Toml);
    assert_eq!(format_for(".json"), Format::Toml);
    assert_eq!(format_for("dir.json/app"), Format::Toml);
}

#[test]
fn toml_leaves_are_carried() {
    let val = parse_by_extension(
        &"a.toml".to_string(),
        "f = 0.25\nd = 1979-05-27T07:32:00Z\nl = [1, \"two\"]\n",
    )
    .expect("toml");
    assert_eq!(get(&val, "f"), Some(&ConfigValue::Float(0.25f64.to_bits())));
    assert_eq!(
        get(&val, "d"),
        Some(&ConfigValue::Datetime("1979-05-27T07:32:00Z".into()))
    );
    assert_eq!(
        get(&val, "l"),
        Some(&ConfigValue::Array(vec![
            ConfigValue::Integer(1),
            ConfigValue::String("two".into())
        ]))
    );
}

#[test]
fn malformed_text_is_parse_error() {
    let path = "broken.toml".to_string();
    let error = parse_by_extension(&path, "port = 1000\nregion =\nbroken").err().expect("malformed file");
    assert!(matches!(&error, ConfigError::Parse { path, .. } if path == "broken.toml"), "{error:?}");
    assert!(error.to_string().contains("broken.toml"));
}

#[test]
fn unreadable_file_is_io_error() {
    let path = "/nonexistent/ckit/service.toml".to_string();
    let read: Result<String, String> = Err("No such file or directory (os error 2)".into());
    let error = read_layer_value(&path, &read).err().expect("missing file");
    assert!(
        matches!(error, ConfigError::Io { .. } if error.to_string().contains("service.toml")),
        "{error:?}"
    );
}
