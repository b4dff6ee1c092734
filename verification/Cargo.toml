[package]
name = "meowdict"
version = "0.1.0"
edition = "2021"
publish = false

[dependencies]
serde_json = { version = "=1.0.151", features = ["preserve_order"] }
indexmap = "=2.14.2"
anyhow = "=1.0.104"
rustyline = "=18.0.1"
reqwest = { version = "=0.13.5", default-features = false, features = ["blocking"] }
