[package]
name = "mdbook-diagrams"
version = "0.1.0"
edition = "2021"
publish = false

[dependencies]
regex = "1"
sha2 = "0.10"
toml = "0.5"
anyhow = "1"
clap = "4"
futures = "0.3"
mdbook = { version = "0.4", default-features = false }
reqwest = { version = "0.12", features = ["blocking"] }
semver = "1"
serde_json = "1"
tokio = { version = "1", features = ["rt-multi-thread", "process", "io-util", "fs", "sync"] }
