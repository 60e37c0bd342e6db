[package]
name = "tasklist"
version = "0.1.0"
edition = "2021"
publish = false

[dependencies]
clap = "3"
colored = "2"
itertools = "0.10"
regex = "1"
serde = { version = "1", features = ["derive"] }
serde_json = "1"
