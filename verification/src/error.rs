//! Errors produced while loading, validating, and watching configuration.
use vstd::prelude::*;
use crate::text::{views, join_with, join_strings};

verus! {

/// Loading, parsing, strict-validation, and watching failures.
///
/// Every variant carries the condition that produced it; outside errors
/// travel as their rendered message.
#[derive(Debug, PartialEq, Eq)]
#[non_exhaustive]
pub enum ConfigError {
    /// Reading a configuration file failed at the OS level.
    Io { path: String, message: String },
    /// A file failed to parse in its format, or the merged configuration
    /// did not deserialize into the target type. `path` names the file
    /// involved, or the origin of the offending value; it is empty when
    /// nothing more specific applies.
    Parse { path: String, message: String },
    /// A strict load found top-level keys that no field consumed; sorted
    /// and deduplicated.
    UnknownFields { keys: Vec<String> },
    /// An environment variable matching the layer prefix carries a value
    /// that is not valid Unicode.
    EnvVar { key: String, message: String },
    /// File watching could not start.
    WatchFailed { message: String },
    /// The watcher's shared error slot was poisoned by a panic.
    Poisoned,
}

/// The model of a [`ConfigError`].
pub enum ConfigErrorView {
    Io { path: Seq<char>, message: Seq<char> },
    Parse { path: Seq<char>, message: Seq<char> },
    UnknownFields { keys: Seq<Seq<char>> },
    EnvVar { key: Seq<char>, message: Seq<char> },
    WatchFailed { message: Seq<char> },
    Poisoned,
}

impl View for ConfigError {
    type V = ConfigErrorView;

    open spec fn view(&self) -> ConfigErrorView {
        match self {
            ConfigError::Io { path, message } => ConfigErrorView::Io { path: path@, message: message@ },
            ConfigError::Parse { path, message } => ConfigErrorView::Parse {
                path: path@,
                message: message@,
            },
            ConfigError::UnknownFields { keys } => ConfigErrorView::UnknownFields {
                keys: views(keys@),
            },
            ConfigError::EnvVar { key, message } => ConfigErrorView::EnvVar {
                key: key@,
                message: message@,
            },
            ConfigError::WatchFailed { message } => ConfigErrorView::WatchFailed {
                message: message@,
            },
            ConfigError::Poisoned => ConfigErrorView::Poisoned,
        }
    }
}


/// How a parse error shows its path: the empty path as `(merged)`.
pub open spec fn shown_path(path: Seq<char>) -> Seq<char> {
    if path.len() == 0 {
        "(merged)"@
    } else {
        path
    }
}

/// The message of an error.
pub open spec fn error_text(e: ConfigErrorView) -> Seq<char> {
    match e {
        ConfigErrorView::Io { path, message } => "failed to read config file "@ + path + ": "@ + message,
        ConfigErrorView::Parse { path, message } => "failed to parse config file "@ + shown_path(path)
            + ": "@ + message,
        ConfigErrorView::UnknownFields { keys } => "unknown top-level configuration keys: "@ + join_with(
            keys,
            ", "@,
        ),
        ConfigErrorView::EnvVar { key, message } => "environment variable `"@ + key
            + "` is not valid Unicode: "@ + message,
        ConfigErrorView::WatchFailed { message } => "failed to start file watcher: "@ + message,
        ConfigErrorView::Poisoned => "config watcher lock poisoned; watcher state is unusable"@,
    }
}

impl ConfigError {
    /// Renders a parse error's path, collapsing the empty path to
    /// `(merged)`.
    pub fn parse_path(path: &str) -> (r: String)
        ensures
            r@ == shown_path(path@),
    {
        if path.unicode_len() == 0 {
            String::from_str("(merged)")
        } else {
            String::from_str(path)
        }
    }

    /// The error's message.
    pub fn to_string(&self) -> (r: String)
        ensures
            r@ == error_text(self@),
    {
        match self {
            ConfigError::Io { path, message } => {
                let mut s = String::from_str("failed to read config file ");
                s.append(path.as_str());
                s.append(": ");
                s.append(message.as_str());
                s
            },
            ConfigError::Parse { path, message } => {
                let mut s = String::from_str("failed to parse config file ");
                let shown = ConfigError::parse_path(path.as_str());
                s.append(shown.as_str());
                s.append(": ");
                s.append(message.as_str());
                s
            },
            ConfigError::UnknownFields { keys } => {
                let mut s = String::from_str("unknown top-level configuration keys: ");
                let joined = join_strings(keys, ", ");
                s.append(joined.as_str());
                s
            },
            ConfigError::EnvVar { key, message } => {
                let mut s = String::from_str("environment variable `");
                s.append(key.as_str());
                s.append("` is not valid Unicode: ");
                s.append(message.as_str());
                s
            },
            ConfigError::WatchFailed { message } => {
                let mut s = String::from_str("failed to start file watcher: ");
                s.append(message.as_str());
                s
            },
            ConfigError::Poisoned => String::from_str("config watcher lock poisoned; watcher state is unusable"),
        }
    }
}

} // verus!
