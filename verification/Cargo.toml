[package]
name = "proof_of_storage"
version = "0.1.0"
edition = "2021"
publish = false

[dependencies]
blake3 = { version = "=1.8.7", features = ["traits-preview"] }
digest = "=0.10.7"
ff = { version = "=0.12.1", features = ["derive"] }
fffft = "=0.4.2"
lcpc-2d = "=0.1.1"
lcpc-ligero-pc = "=0.1.1"
lcpc-test-fields = "=0.1.1"
rand = "=0.8.8"
rand_chacha = "=0.3.1"
rand_core = "=0.6.4"
typenum = "=1.20.1"
serde = { version = "=1.0.229", features = ["derive"] }
serde_json = "=1.0.154"
anyhow = "=1.0.104"
ulid = { version = "=1.2.1", features = ["serde"] }
tokio = { version = "=1.54.1", features = ["full"] }
tokio-util = { version = "=0.7.20", features = ["codec"] }
tokio-serde = { version = "=0.9.0", features = ["json"] }
futures = "=0.3.34"
clap = { version = "=4.6.7", features = ["derive"] }
tracing = "=0.1.44"
tracing-subscriber = "=0.3.23"
itertools = "=0.15.0"
num-traits = "=0.2.19"
rayon = "=1.12.0"
