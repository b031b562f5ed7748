[package]
name = "automata"
version = "0.1.0"
edition = "2021"
publish = false

[dependencies]
itertools = "*"
rocket = { version = "0.5", features = ["json"] }
serde = { version = "1", features = ["derive"] }
serde_json = "1"
