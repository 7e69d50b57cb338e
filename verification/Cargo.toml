[package]
name = "dark_hypercore"
version = "0.1.0"
edition = "2021"
publish = false

[dependencies]
slab = "0.4"
sha2 = "0.10"
hex = "0.4"
rust_decimal = "1"

[dev-dependencies]
rand = "0.8"
rand_chacha = "0.3"
