[package]
name = "cq"
version = "0.1.0"
edition = "2021"
publish = false

[dependencies]
hex = "0.4"
serde = { version = "1", features = ["derive"] }
serde_json = "1"
clap = { version = "4", features = ["derive"] }
colored = "2"
comfy-table = "7"
thiserror = "1"
ciborium = "0.2"
ureq = "2"
cml-chain = "*"
cml-core = "*"
cml-crypto = "*"
