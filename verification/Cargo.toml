[package]
name = "demo_schema"
version = "0.1.0"
edition = "2021"
publish = false

[dependencies]
bitbuffer = "*"
serde = { version = "*", features = ["derive"] }
