[package]
name = "txpool_core"
version = "0.1.0"
edition = "2021"
publish = false

[dependencies]
num-rational = "0.4"
fuel-core-types = "*"
fuel-core-services = "*"
anyhow = "1"
async-trait = "0.1"
futures = "0.3"
parking_lot = "0.12"
tokio = { version = "1", features = ["macros", "rt", "sync", "time"] }
tracing = "0.1"

[dev-dependencies]
rand = "0.8"
