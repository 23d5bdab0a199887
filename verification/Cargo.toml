[package]
name = "eve"
version = "0.1.0"
edition = "2021"
publish = false

[dependencies]
rustc-serialize = "*"
websocket = { version = "*", default-features = false, features = ["sync"] }
