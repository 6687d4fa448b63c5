[package]
name = "fluxion"
version = "0.1.0"
edition = "2021"
publish = false

[dependencies]
chrono = { version = "=0.4.45", features = ["serde"] }
serde = { version = "=1.0.229", features = ["derive"] }
serde_json = "=1.0.154"
fluent = "=0.17.0"
intl-memoizer = "=0.5.3"
unic-langid = "=0.9.6"
parking_lot = "=0.13.0"
thiserror = "=2.0.21"
