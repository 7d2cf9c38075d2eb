[package]
name = "doublets"
version = "0.1.0"
edition = "2021"
publish = false

[dependencies]
platform-data = ">=0.1.0-beta.1"
thiserror = "*"
tracing = "*"
tracing-subscriber = { version = "*", features = ["env-filter", "json"] }
crossbeam-channel = "*"
log-panics = "*"
tap = "*"
rayon = "*"
smallvec = "*"
