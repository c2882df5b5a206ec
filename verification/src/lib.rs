//! Layered typed configuration.
//!
//! Settings are assembled from layered sources (a base file, then
//! environment variables, then in-process overrides) that deep-merge key
//! by key in the order the layers were added: later layers win on
//! colliding keys, and tables merge so that a late layer can override one
//! nested field without clobbering its siblings. Every value a layer puts
//! in place is attributed to that layer, so a value that fails to fit the
//! target type, at any depth, is reported against the file,
//! `<env:VARIABLE>` or `<overrides>` that supplied it. Strict loading lists the unconsumed
//! top-level keys, sorted and deduplicated. [`Sensitive`] keeps secrets out
//! of every rendering.
//!
//! The library works on values: the caller reads files and the process
//! environment, deserializes the merged [`value::ConfigValue`] into its own
//! type, and hands the outcomes back ([`builder::finish_load`],
//! [`builder::finish_load_strict`]). Layers can merge one at a time
//! ([`builder::absorb_layer`]), so nothing after a failing layer is read.
pub mod builder;
pub mod env;
pub mod error;
pub mod formats;
pub mod keys;
pub mod layer;
pub mod merge;
pub mod provenance;
pub mod sensitive;
pub mod text;
pub mod value;
pub mod watcher;

pub use builder::{ConfigBuilder, Empty, Ready};
pub use error::ConfigError;
pub use layer::ConfigLayer;
pub use sensitive::Sensitive;
