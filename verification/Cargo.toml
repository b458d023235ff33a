[package]
name = "kanon"
version = "0.1.0"
edition = "2021"
publish = false

[dependencies]
process_mining = "=0.6.2"
ordered-float = { version = "=5.5.1", features = ["serde"] }
serde = { version = "=1.0.229", features = ["derive"] }
serde_json = "=1.0.154"
mimalloc = "=0.1.52"
