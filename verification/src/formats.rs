//! Reading one file layer: the format picked by extension, and the parsers
//! of the three formats.
use vstd::prelude::*;
use crate::error::{ConfigError, ConfigErrorView};
use crate::value::{ConfigValue, Tree, keys_unique};

verus! {

/// A configuration file format.
#[derive(Debug, Clone, Copy, PartialEq, Eq, Structural)]
pub enum Format {
    Toml,
    Json,
    Yaml,
}

/// The code of `c` with ASCII uppercase letters mapped to lowercase.
pub open spec fn ascii_lower_code(c: char) -> int {
    if 65 <= (c as u32) <= 90 {
        (c as u32) + 32
    } else {
        c as u32 as int
    }
}

/// `s` equals `lower` once ASCII uppercase letters of `s` are lowercased.
pub open spec fn ascii_lower_eq(s: Seq<char>, lower: Seq<char>) -> bool {
    s.len() == lower.len() && forall|i: int| 0 <= i < s.len() ==> ascii_lower_code(#[trigger] s[i])
        == lower[i] as u32 as int
}

/// Whether `s` equals `lower` once ASCII uppercase letters of `s` are
/// lowercased.
pub fn eq_ascii_lowercase(s: &str, lower: &str) -> (r: bool)
    ensures
        r == ascii_lower_eq(s@, lower@),
{
    let n = s.unicode_len();
    if n != lower.unicode_len() {
        return false;
    }
    let mut i: usize = 0;
    while i < n
        invariant
            n == s@.len(),
            n == lower@.len(),
            0 <= i <= n,
            forall|j: int| 0 <= j < i ==> ascii_lower_code(#[trigger] s@[j]) == lower@[j] as u32 as int,
        decreases n - i,
    {
        let code = s.get_char(i) as u32;
        let lowered = if 65 <= code && code <= 90 {
            code + 32
        } else {
            code
        };
        if lowered != lower.get_char(i) as u32 {
            return false;
        }
        i = i + 1;
    }
    true
}

/// What `Path::extension` gives for `path`: the part of the file name
/// after its last `.`, if there is one.
pub uninterp spec fn path_extension(path: Seq<char>) -> Option<Seq<char>>;

/// The extension of `path`, by `std::path::Path::extension`.
#[verifier::external_body]
pub fn extension_of(path: &str) -> (r: Option<String>)
    ensures
        match r {
            Some(e) => path_extension(path@) == Some(e@),
            None => path_extension(path@) is None,
        },
{
    std::path::Path::new(path).extension().and_then(|e| e.to_str()).map(|e| e.to_string())
}

/// The format that a file extension names: `json` is JSON, `yaml` and
/// `yml` are YAML (letters in any ASCII case), and anything else, no
/// extension included, is TOML.
pub open spec fn format_of_extension(ext: Option<Seq<char>>) -> Format {
    match ext {
        None => Format::Toml,
        Some(e) => if ascii_lower_eq(e, "json"@) {
            Format::Json
        } else if ascii_lower_eq(e, "yaml"@) || ascii_lower_eq(e, "yml"@) {
            Format::Yaml
        } else {
            Format::Toml
        },
    }
}

/// The format of a file at `path`, by the extension of its file name.
pub open spec fn format_of(path: Seq<char>) -> Format {
    format_of_extension(path_extension(path))
}

/// The format that the file extension `ext` names.
pub fn format_for_extension(ext: &Option<String>) -> (r: Format)
    ensures
        r == format_of_extension(match ext {
            Some(e) => Some(e@),
            None => None,
        }),
{
    match ext {
        None => Format::Toml,
        Some(e) => {
            if eq_ascii_lowercase(e.as_str(), "json") {
                Format::Json
            } else if eq_ascii_lowercase(e.as_str(), "yaml") || eq_ascii_lowercase(e.as_str(), "yml") {
                Format::Yaml
            } else {
                Format::Toml
            }
        },
    }
}

/// The format of the file at `path`, picked by its extension.
pub fn format_for(path: &str) -> (r: Format)
    ensures
        r == format_of(path@),
{
    let ext = extension_of(path);
    format_for_extension(&ext)
}

#[verifier::external_type_specification]
#[verifier::external_body]
pub struct ExTomlValue(toml::Value);

/// The value that a parsed `toml::Value` holds, leaf by leaf: floats as
/// their bit pattern, datetimes as their TOML text.
#[verifier::external_body]
fn value_from_toml(v: toml::Value) -> ConfigValue {
    match v {
        toml::Value::String(s) => ConfigValue::String(s),
        toml::Value::Integer(n) => ConfigValue::Integer(n),
        toml::Value::Float(x) => ConfigValue::Float(x.to_bits()),
        toml::Value::Boolean(b) => ConfigValue::Boolean(b),
        toml::Value::Datetime(d) => ConfigValue::Datetime(d.to_string()),
        toml::Value::Array(items) => ConfigValue::Array(items.into_iter().map(value_from_toml).collect()),
        toml::Value::Table(t) => ConfigValue::Table(t.into_iter().map(|(k, x)| (k, value_from_toml(x))).collect()),
    }
}

/// What `toml::from_str` reads from `text` as a TOML document, or its
/// error message.
pub uninterp spec fn toml_document(text: Seq<char>) -> Result<Tree, Seq<char>>;

/// What `serde_json::from_str` reads from `text` into a TOML value, or its
/// error message.
pub uninterp spec fn json_document(text: Seq<char>) -> Result<Tree, Seq<char>>;

/// What `serde_yaml_ng::from_str` reads from `text` into a TOML value, or
/// its error message.
pub uninterp spec fn yaml_document(text: Seq<char>) -> Result<Tree, Seq<char>>;

pub open spec fn outcome_view(r: Result<ConfigValue, String>) -> Result<Tree, Seq<char>> {
    match r {
        Ok(v) => Ok(v@),
        Err(m) => Err(m@),
    }
}

/// Parses `text` as a TOML document with `toml::from_str`; an error
/// becomes its message. Each table of the document is a `toml::Map`, so
/// it holds every key once.
#[verifier::external_body]
pub fn parse_toml(text: &str) -> (r: Result<ConfigValue, String>)
    ensures
        outcome_view(r) == toml_document(text@),
        r matches Ok(v) ==> keys_unique(v@),
{
    match toml::from_str::<toml::Value>(text) {
        Ok(v) => Ok(value_from_toml(v)),
        Err(e) => Err(e.to_string()),
    }
}

/// Parses `text` as JSON into a TOML value with `serde_json::from_str`;
/// an error becomes its message. Each table is read into a `toml::Map`,
/// where a key given twice keeps one entry, so it holds every key once.
#[verifier::external_body]
pub fn parse_json(text: &str) -> (r: Result<ConfigValue, String>)
    ensures
        outcome_view(r) == json_document(text@),
        r matches Ok(v) ==> keys_unique(v@),
{
    match serde_json::from_str::<toml::Value>(text) {
        Ok(v) => Ok(value_from_toml(v)),
        Err(e) => Err(e.to_string()),
    }
}

/// Parses `text` as YAML into a TOML value with `serde_yaml_ng::from_str`;
/// an error becomes its message. Each table is read into a `toml::Map`,
/// so it holds every key once.
#[verifier::external_body]
pub fn parse_yaml(text: &str) -> (r: Result<ConfigValue, String>)
    ensures
        outcome_view(r) == yaml_document(text@),
        r matches Ok(v) ==> keys_unique(v@),
{
    match serde_yaml_ng::from_str::<toml::Value>(text) {
        Ok(v) => Ok(value_from_toml(v)),
        Err(e) => Err(e.to_string()),
    }
}

/// What the parser of format `f` reads from `text`.
pub open spec fn parse_in(f: Format, text: Seq<char>) -> Result<Tree, Seq<char>> {
    match f {
        Format::Toml => toml_document(text),
        Format::Json => json_document(text),
        Format::Yaml => yaml_document(text),
    }
}

/// What one file layer at `path` yields, given what reading the file gave
/// (its text, or the message of the OS error).
pub open spec fn read_layer(path: Seq<char>, read: Result<Seq<char>, Seq<char>>) -> Result<
    Tree,
    ConfigErrorView,
> {
    match read {
        Err(m) => Err(ConfigErrorView::Io { path, message: m }),
        Ok(text) => match parse_in(format_of(path), text) {
            Ok(t) => Ok(t),
            Err(m) => Err(ConfigErrorView::Parse { path, message: m }),
        },
    }
}

pub open spec fn read_view(r: Result<String, String>) -> Result<Seq<char>, Seq<char>> {
    match r {
        Ok(t) => Ok(t@),
        Err(m) => Err(m@),
    }
}

pub open spec fn layer_outcome_view(r: Result<ConfigValue, ConfigError>) -> Result<Tree, ConfigErrorView> {
    match r {
        Ok(v) => Ok(v@),
        Err(e) => Err(e@),
    }
}

/// Parses `text` as the format named by `path`'s extension: `.json` and
/// `.yaml`/`.yml`, everything else as TOML. A parse failure is a
/// [`ConfigError::Parse`] naming `path`.
pub fn parse_by_extension(path: &String, text: &str) -> (r: Result<ConfigValue, ConfigError>)
    ensures
        layer_outcome_view(r) == read_layer(path@, Ok(text@)),
        r matches Ok(v) ==> keys_unique(v@),
{
    let parsed = match format_for(path.as_str()) {
        Format::Json => parse_json(text),
        Format::Yaml => parse_yaml(text),
        Format::Toml => parse_toml(text),
    };
    match parsed {
        Ok(v) => Ok(v),
        Err(message) => Err(ConfigError::Parse { path: path.clone(), message }),
    }
}

/// Reads one file layer from what reading the file at `path` gave: the
/// file's text, or the message of the OS error, which becomes a
/// [`ConfigError::Io`].
pub fn read_layer_value(path: &String, read: &Result<String, String>) -> (r: Result<ConfigValue, ConfigError>)
    ensures
        layer_outcome_view(r) == read_layer(path@, read_view(*read)),
        r matches Ok(v) ==> keys_unique(v@),
{
    match read {
        Err(message) => Err(ConfigError::Io { path: path.clone(), message: message.clone() }),
        Ok(text) => parse_by_extension(path, text.as_str()),
    }
}

} // verus!
