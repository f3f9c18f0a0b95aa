[package]
name = "fuga"
version = "0.1.0"
edition = "2021"
publish = false

[dependencies]
rand = "0.8"
syn = { version = "2", features = ["full", "visit"] }
quote = "1"
serde = { version = "1", features = ["derive"] }
serde_json = "1"
memmap2 = "0.9"
