[package]
name = "solc_artifacts"
version = "0.1.0"
edition = "2021"
publish = false

[dependencies]
colored = "2"
ethabi = "17"
futures-util = "0.3"
hex = "0.4"
md-5 = "0.10"
rayon = "1"
semver = "1"
serde = { version = "1", features = ["derive"] }
serde_json = "1"
tokio = { version = "1", features = ["fs"] }
