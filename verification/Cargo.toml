[package]
name = "fus"
version = "0.1.0"
edition = "2021"
publish = false

[dependencies]
clap = { version = "4", features = ["derive"] }
rand = "0.9"
regex = "1"
sha2 = "0.10"
strsim = "0.11"
unicode-normalization = "0.1"
