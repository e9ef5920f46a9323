[package]
name = "flightlog"
version = "0.1.0"
edition = "2021"
publish = false

[dependencies]
anyhow = "*"
clap = { version = "*", features = ["cargo"] }
geoutils = "*"
rusqlite = { version = "*", features = ["bundled"] }
serde_json = "*"
zstd = "*"
