[package]
name = "indexa"
version = "0.1.0"
edition = "2021"
publish = false

[dependencies]
varint-simd = "0.4"
fnv = "1"
bincode = "1"
bitcode = { version = "0.5", features = ["serde"] }
serde = { version = "1", features = ["derive"] }

[dev-dependencies]
serde_json = "1"
rand = "0.8"
