[package]
name = "kvx"
version = "0.1.0"
edition = "2021"
publish = false

[dependencies]
serde_json = "=1.0.151"
url = "=2.5.8"
tempfile = "=3.27.0"
postgres = { version = "=0.19.14", features = ["with-serde_json-1"] }
r2d2_postgres = "=0.18.2"
