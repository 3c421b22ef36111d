[package]
name = "mdbook_slides"
version = "0.3.0"
edition = "2021"
publish = false

[dependencies]
pulldown-cmark = "0.13"
serde = { version = "1", features = ["derive"] }
serde_yaml_ng = "0.10"
serde_json = "1"
toml_edit = "0.23"
mdbook-preprocessor = "0.5"
anyhow = "1"
log = "0.4"
env_logger = "0.11"
clap = "4"
