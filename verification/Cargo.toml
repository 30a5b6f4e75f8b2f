[package]
name = "csv2json"
version = "0.1.0"
edition = "2021"
publish = false

[dependencies]
clap = "=2.34.0"
csv = "=1.4.0"
serde = "=1.0.229"
serde_json = { version = "=1.0.154", features = ["preserve_order"] }
strfmt = "=0.2.6"
