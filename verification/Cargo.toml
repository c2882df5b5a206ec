[package]
name = "config_kit"
version = "0.1.1"
edition = "2021"
publish = false

[dependencies]
toml = "*"
serde = { version = "1", features = ["derive"] }
serde_json = "1"
serde_yaml_ng = "*"
serde_ignored = "*"
serde_path_to_error = "*"
thiserror = "*"
notify = "*"
