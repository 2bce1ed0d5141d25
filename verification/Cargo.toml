[package]
name = "read_test"
version = "0.1.0"
edition = "2021"
publish = false

[dependencies]
tokio = { version = "1", features = ["full"] }
async-channel = "1"
futures = "0.3"
structopt = "0.3"
thiserror = "1"
tracing = "0.1"
tracing-subscriber = "0.3"
