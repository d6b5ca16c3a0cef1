[package]
name = "serde_bonjson"
version = "0.1.0"
edition = "2021"
publish = false

[dependencies]
memchr = "2"
simdutf8 = "0.1"
unicode-normalization = "0.1"
serde = { version = "1", features = ["derive"] }

[dev-dependencies]
serde_json = "1"
regex = "1"
