[package]
name = "basemod_extract"
version = "0.1.0"
edition = "2021"
publish = false

[dependencies]
bio = "*"
rayon = "*"
rust-htslib = { version = "*", default-features = false }

[dev-dependencies]
regex = "*"
