[package]
name = "diloco"
version = "0.1.0"
edition = "2021"
publish = false

[dependencies]
anyhow = "1"
candle-core = "=0.11.1"
candle-nn = "=0.11.1"
clap = { version = "4", features = ["derive"] }
prost = "=0.14.4"
rand = "=0.8.8"
safetensors = "=0.8.0"
serde_json = "=1.0.154"
tokio = { version = "=1.54.1", features = ["macros", "rt-multi-thread", "sync", "time"] }
tonic = "=0.14.9"
tonic-prost = "=0.14.9"
tracing = "0.1"
tracing-subscriber = { version = "0.3", features = ["env-filter"] }
