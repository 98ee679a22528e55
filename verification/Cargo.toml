[package]
name = "geodb_core"
version = "0.1.0"
edition = "2021"
publish = false

[dependencies]
deunicode = "1"
serde = { version = "1", features = ["derive"] }
serde_json = "1"
bincode = "1.3"
flate2 = "1"
once_cell = "1"
clap = { version = "4", features = ["derive"] }
anyhow = "1"
