[package]
name = "portalnet"
version = "0.1.0"
edition = "2021"
publish = false

[dependencies]
discv5 = "0.10"
log = "=0.4.35"
serde_json = "=1.0.154"
threadpool = "=1.8.1"
tokio = { version = "=1.54.1", features = ["macros", "rt-multi-thread", "signal", "sync"] }
tracing = "=0.1.44"
tracing-subscriber = "=0.3.23"

[dev-dependencies]
quickcheck = "=1.1.0"
rand = "0.9"
