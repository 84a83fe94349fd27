[package]
name = "adoc"
version = "0.1.0"
edition = "2021"
publish = false

[dependencies]
camino = "1"
sha2 = "0.10"
serde = { version = "1", features = ["derive"] }
serde_json = "1"
schemars = "1"
thiserror = "2"
clap = { version = "4", features = ["derive"] }
miette = { version = "7", features = ["fancy"] }
tracing-subscriber = { version = "0.3", features = ["env-filter"] }
