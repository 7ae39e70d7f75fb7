[package]
name = "yaml_datastore"
version = "0.1.0"
edition = "2021"

[dependencies]
serde = "1"
serde_yaml = "0.9"
thiserror = "1"
