[package]
name = "cfst"
version = "0.1.0"
edition = "2021"
publish = false

[dependencies]
anyhow = "1"
async-trait = "0.1"
ipnet = "2"
tokio = { version = "1", features = ["net", "rt", "sync", "time"] }
tracing = "0.1"
url = "2"

[dev-dependencies]
nom = "8"
