[package]
name = "mazebot"
version = "0.1.0"
edition = "2021"
publish = false

[dependencies]
reqwest = { version = "*", features = ["blocking", "json"] }
serde = "*"
serde_derive = "*"
