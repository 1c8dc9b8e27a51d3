[package]
name = "wasm_source_map"
version = "0.1.0"
edition = "2021"
publish = false

[dependencies]
gimli = "*"
fallible-iterator = "*"
serde = { version = "*", features = ["derive"] }
serde_json = "*"
