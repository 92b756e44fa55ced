[package]
name = "krabka-client-consumer"
version = "0.4.0"
edition = "2021"
publish = false

[dependencies]
async-trait = "=0.1.92"
bytes = "=1.12.1"
futures-util = "=0.3.34"
thiserror = "=2.0.21"
tokio = { version = "=1.54.1", features = ["sync", "time", "rt", "macros"] }
tokio-util = "=0.7.20"
tracing = "=0.1.44"
