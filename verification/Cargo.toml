[package]
name = "content_chunker"
version = "0.1.0"
edition = "2021"
publish = false

[dependencies]
fastcdc = "=1.0.8"
hex = "=0.4.3"
sha2 = "=0.10.9"
rayon = "=1.12.0"
memmap2 = "=0.9.12"
neon = { version = "=0.10.1", default-features = false, features = ["napi-6", "channel-api"] }
