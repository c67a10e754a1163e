[package]
name = "bindle_reply"
version = "0.1.0"
edition = "2021"
publish = false

[dependencies]
serde = { version = "1", features = ["derive"] }
toml = "0.5"
warp = { version = "0.3", default-features = false }
