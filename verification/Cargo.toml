[package]
name = "verifiable_lottery"
version = "0.1.0"
edition = "2021"
publish = false

[dependencies]
blake2 = "0.9"
generic-array = "0.14"
hex = "0.4"
rand = "0.8"
serde = { version = "1", features = ["derive"] }
serde_json = "1"
structopt = "0.3"
