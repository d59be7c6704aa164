[package]
name = "reseller_test"
version = "0.1.0"
edition = "2021"
publish = false

[dependencies]
kinode_process_lib = "=0.9.7"
serde = { version = "*", features = ["derive"] }
serde_json = "*"
anyhow = "*"
dotenvy = "*"
url = "=2.5.8"
