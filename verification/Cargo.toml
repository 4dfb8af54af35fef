[package]
name = "dolos"
version = "0.1.0"
edition = "2021"
publish = false

[dependencies]
pallas = { version = "=0.23.0", features = ["unstable"] }
utxorpc-spec = "=0.3.0"
tonic = "=0.9.2"
tokio = { version = "=1.54.1", features = ["rt-multi-thread", "macros", "sync", "signal"] }
tokio-stream = "=0.1.19"
futures-core = "=0.3.34"
async-trait = "=0.1.92"
tracing = "=0.1.44"
tracing-subscriber = "=0.3.23"
clap = { version = "=4.6.7", features = ["derive"] }
