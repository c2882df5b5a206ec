use config_kit::env::{collect, infer, parse_i64, EnvEntry};
use config_kit::value::ConfigValue;
use config_kit::ConfigError;

fn infer_env(raw: &str) -> ConfigValue {
    infer(raw, raw.parse::<f64>().ok().map(f64::to_bits))
}

fn entry(key: &str, value: &str) -> EnvEntry {
    EnvEntry {
        key: Some(key.to_string()),
        value: Ok(value.to_string()),
        float_bits: value.parse::<f64>().ok().map(f64::to_bits),
    }
}

#[test]
fn infer_typed_literals() {
    assert_eq!(infer_env("true"), ConfigValue::Boolean(true));
    assert_eq!(infer_env("false"), ConfigValue::Boolean(false));
    assert_eq!(infer_env("8080"), ConfigValue::Integer(8080));
    assert_eq!(infer_env("-3"), ConfigValue::Integer(-3));
    assert_eq!(infer_env("0.5"), ConfigValue::Float(0.5f64.to_bits()));
    assert_eq!(infer_env("svc"), ConfigValue::String("svc".into()));
    assert_eq!(infer_env(""), ConfigValue::String(String::new()));
}

#[test]
fn infer_edge_literals() {
    assert_eq!(infer_env("True"), ConfigValue::String("True".into()));
    assert_eq!(infer_env("+7"), ConfigValue::Integer(7));
    assert_eq!(infer_env("007"), ConfigValue::Integer(7));
    assert_eq!(infer_env("1e3"), ConfigValue::Float(1000.0f64.to_bits()));
    assert_eq!(infer_env("9223372036854775807"), ConfigValue::Integer(i64::MAX));
    assert_eq!(infer_env("-9223372036854775808"), ConfigValue::Integer(i64::MIN));
    assert_eq!(
        infer_env("9223372036854775808"),
        ConfigValue::Float(9223372036854775808.0f64.to_bits())
    );
    assert_eq!(infer(" 1", None), ConfigValue::String(" 1".into()));
}

#[test]
fn parse_i64_agrees_with_std() {
    let samples = [
        "", "+", "-", "0", "-0", "+0", "42", "-42", "+42", "0042", "1_000", " 1", "1 ", "12a",
        "9223372036854775807", "9223372036854775808", "-9223372036854775808",
        "-9223372036854775809", "99999999999999999999999", "٣", "--1", "+-1",
    ];
    for s in samples {
        assert_eq!(parse_i64(s), s.parse::<i64>().ok(), "{s:?}");
    }
}

#[test]
fn collect_maps_and_lowercases() {
    let marker = "CKIT_TEST_COLLECT_";
    let entries = vec![
        entry(&format!("{marker}PORT"), "9000"),
        entry(&format!("{marker}name"), "demo"),
        entry("UNRELATED", "x"),
    ];
    let bindings = collect(marker, &entries).expect("collect");
    assert_eq!(bindings.len(), 2);
    let port = bindings.iter().find(|b| b.key == "port").expect("port");
    assert_eq!(port.value, ConfigValue::Integer(9000));
    assert_eq!(port.var, format!("{marker}PORT"), "merged keys must trace back to their variable");
    let name = bindings.iter().find(|b| b.key == "name").expect("name");
    assert_eq!(name.value, ConfigValue::String("demo".into()));
}

#[test]
fn collect_skips_bare_prefix() {
    let marker = "CKIT_TEST_BARE_";
    let entries = vec![entry(marker, "1")];
    let bindings = collect(marker, &entries).expect("collect");
    assert!(bindings.is_empty());
}

#[test]
fn collect_skips_non_unicode_names_and_is_case_sensitive() {
    let entries = vec![
        EnvEntry { key: None, value: Ok("1".into()), float_bits: None },
        entry("app_port", "1"),
    ];
    let bindings = collect("APP_", &entries).expect("collect");
    assert!(bindings.is_empty());
}

#[test]
fn later_variable_with_same_key_wins() {
    let entries = vec![entry("APP_PORT", "1"), entry("APP_port", "2")];
    let bindings = collect("APP_", &entries).expect("collect");
    assert_eq!(bindings.len(), 1);
    assert_eq!(bindings[0].key, "port");
    assert_eq!(bindings[0].var, "APP_port");
    assert_eq!(bindings[0].value, ConfigValue::Integer(2));
}

#[test]
fn non_unicode_value_is_envvar_error() {
    let entries = vec![EnvEntry {
        key: Some("CKIT_NONUNICODE_TOKEN".into()),
        value: Err("environment variable was not valid unicode".into()),
        float_bits: None,
    }];
    let error = collect("CKIT_NONUNICODE_", &entries).err().expect("error");
    assert_eq!(
        error,
        ConfigError::EnvVar {
            key: "CKIT_NONUNICODE_TOKEN".into(),
            message: "environment variable was not valid unicode".into(),
        }
    );
}

#[test]
fn non_unicode_value_outside_prefix_is_ignored() {
    let entries = vec![EnvEntry { key: Some("OTHER".into()), value: Err("bad".into()), float_bits: None }];
    assert!(collect("APP_", &entries).expect("collect").is_empty());
}
