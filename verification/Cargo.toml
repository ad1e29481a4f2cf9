[package]
name = "config_core"
version = "0.1.0"
edition = "2021"
publish = false

[dependencies]
dirs = "5"
serde = { version = "1", features = ["derive"] }
tempfile = "3"
thiserror = "2"
toml_edit = "0.22"
