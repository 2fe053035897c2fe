[package]
name = "zfx_tezos_client"
version = "0.1.0"
edition = "2021"
publish = false

[dependencies]
tokio = { version = "1", features = ["process", "io-util", "sync", "rt-multi-thread", "time"] }
serde_json = "1"
