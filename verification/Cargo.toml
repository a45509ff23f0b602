[package]
name = "rimu"
version = "0.1.0"
edition = "2021"
publish = false

[dependencies]
rust_decimal = "1"
regex = "1"
line-span = "*"
serde = { version = "1", features = ["derive"] }
serde_json = "1"
serde_yaml = "*"
toml = "*"
clap = { version = "4", features = ["derive"] }
ariadne = "*"
indexmap = { version = "2", features = ["serde"] }
