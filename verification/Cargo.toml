[package]
name = "carisa_core"
version = "0.1.0"
edition = "2021"
publish = false

[dependencies]
serde-saphyr = "=2.0.0"
serde = { version = "=1.0.229", features = ["derive"] }
serde_json = "=1.0.154"
zstd = "=0.14.3"
redis = { version = "=1.8.1", features = ["tokio-comp", "connection-manager"] }
rig-core = { version = "=0.32.0", default-features = false }
async-trait = "=0.1.92"
futures-util = "=0.3.34"
thiserror = "=2.0.21"
tokio = { version = "=1.54.1", features = ["rt", "rt-multi-thread", "macros"] }
ulid = "=3.0.0"
