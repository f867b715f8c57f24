[package]
name = "aether"
version = "0.1.0"
edition = "2021"
publish = false

[dependencies]
miniz_oxide = "0.8"
zstd = "0.13"
fjall = "2"
serde = { version = "1", features = ["derive"] }
toml = "0.8"
libc = "0.2"
