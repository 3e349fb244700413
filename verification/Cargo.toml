[package]
name = "vocab"
version = "0.1.0"
edition = "2021"
publish = false

[dependencies]
clap = { version = "4", features = ["derive"] }
text_io = "0.1"

[dev-dependencies]
serde_json = "1"
