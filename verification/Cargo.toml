[package]
name = "netperf"
version = "0.1.0"
edition = "2021"
publish = false

[dependencies]
anyhow = "=1.0.104"
clap = { version = "=4.6.7", features = ["derive"] }
cling = "=0.1.3"
colored = "=3.1.1"
futures = "=0.3.34"
getrandom = "=0.3.4"
log = "=0.4.35"
serde = { version = "=1.0.229", features = ["derive"] }
serde_json = "=1.0.154"
tokio = { version = "=1.54.1", features = ["io-util", "macros", "net", "rt", "sync", "time"] }
wasmtime = { version = "=45.0.3", features = ["component-model-async"] }
wasmtime-wasi = { version = "=45.0.3", features = ["p3"] }
