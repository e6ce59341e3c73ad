[package]
name = "smart_fec_tunnel"
version = "0.2.0"
edition = "2021"
publish = false

[dependencies]
anyhow = "1"
blake3 = { version = "1", features = ["pure"] }
bytes = "1"
chacha20poly1305 = "0.10"
clap = { version = "4", features = ["derive", "env"] }
quinn = { version = "0.11", default-features = false, features = ["log", "runtime-tokio", "rustls-ring"] }
rand = "0.8"
reed-solomon-erasure = "6"
rustls-pemfile = "2"
subtle = "2"
tokio = { version = "1", features = ["full"] }
tracing = "0.1"
tracing-subscriber = { version = "0.3", features = ["env-filter"] }
