[package]
name = "common_words"
version = "0.1.0"
edition = "2021"
publish = false

[dependencies]
clap = "4"
reqwest = { version = "0.12", default-features = false, features = ["blocking"] }
