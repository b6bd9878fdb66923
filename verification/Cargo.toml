[package]
name = "spacewalk"
version = "0.3.0"
edition = "2021"
publish = false

[dependencies]
hashbrown = "*"
serde = { version = "*", features = ["derive"] }
