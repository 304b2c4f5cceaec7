[package]
name = "poam"
version = "0.1.0"
edition = "2021"
publish = false

[dependencies]
qfilter = { version = "=0.2.5", features = ["serde"] }
sha2 = "=0.10.9"
serde = { version = "=1.0.229", features = ["derive"] }
serde_json = "=1.0.154"
bincode = "=1.3.3"
anyhow = "=1.0.104"
once_cell = "=1.21.4"
tokio = { version = "=1.54.1", features = ["rt-multi-thread", "macros", "fs", "io-util", "sync"] }
tokio-stream = "=0.1.19"
futures-core = "=0.3.34"
tonic = "=0.12.3"
prost = "=0.13.5"
risc0-zkvm = { version = "=2.3.2", default-features = false, features = ["std", "client"] }
