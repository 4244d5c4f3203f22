[package]
name = "kv_core"
version = "0.1.0"
edition = "2021"
publish = false

[dependencies]
aes-gcm = "=0.10.3"
hkdf = "=0.12.4"
sha2 = "=0.10.9"
base64 = "=0.22.1"
getrandom = "=0.2.17"
chrono = { version = "=0.4.45", features = ["serde"] }
tokio = { version = "=1.54.1", features = ["sync", "rt", "rt-multi-thread", "macros", "time", "fs", "io-util", "net", "signal"] }
sled = "=0.34.7"
serde = { version = "=1.0.229", features = ["derive"] }
serde_json = "=1.0.154"
thiserror = "=1.0.69"
anyhow = "=1.0.104"
async-trait = "=0.1.92"
config = { version = "=0.14.1", default-features = false }
tracing = "=0.1.44"
tracing-subscriber = "=0.3.23"
urlencoding = "=2.1.3"
uuid = "=1.29.0"
reqwest = { version = "=0.12.28", default-features = false }
pyo3 = "=0.22.6"
