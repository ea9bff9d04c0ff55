[package]
name = "json_obfuscator"
version = "0.1.0"
edition = "2021"
publish = false

[dependencies]
anyhow = "1"
clap = { version = "4", features = ["derive"] }
clap_derive = "4"
rand = "0.8"
serde_json = { version = "1", features = ["preserve_order"] }
