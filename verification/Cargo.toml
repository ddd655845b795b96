[package]
name = "turborand"
version = "0.1.0"
edition = "2021"
publish = false

[dependencies]
getrandom = "0.2"
rand_core = "0.6"
serde = { version = "1", features = ["derive"] }
