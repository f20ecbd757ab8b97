[package]
name = "sixel-image"
version = "0.1.0"
edition = "2021"
publish = false

[dependencies]
sixel-tokenizer = "0.1.0"

[dev-dependencies]
image = { version = "0.24", default-features = false }
itertools = "0.10"
