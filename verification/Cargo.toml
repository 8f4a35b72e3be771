[package]
name = "stegsolve-rs"
version = "0.2.2"
edition = "2021"
publish = false

[dependencies]
image = "0.25"
serde = { version = "1", features = ["derive"] }
confy = "*"
