[package]
name = "json_store"
version = "0.1.0"
edition = "2021"
publish = false

[dependencies]
aes-gcm = "0.10"
hex = "0.4"
rand = "0.8"
serde = { version = "1", features = ["derive"] }
serde_json = { version = "1", features = ["preserve_order"] }
parking_lot = "0.12"
napi = { version = "2", features = ["serde-json"] }
napi-derive = "2"
