[package]
name = "avdr_contracts"
version = "0.1.0"
edition = "2021"
publish = false

[dependencies]
l1x-sdk = "=0.3.2"
borsh = "=0.9.3"
serde = { version = "=1.0.229", features = ["derive"] }
serde_json = "=1.0.154"
base64 = "=0.21.7"
base64-serde = "=0.7.0"
hex = "=0.4.3"
solabi = "=0.3.1"
