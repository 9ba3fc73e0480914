[package]
name = "nicknamedb"
version = "0.1.0"
edition = "2021"
publish = false

[dependencies]
chrono = { version = "0.4", default-features = false, features = ["clock"] }
futures = "0.3"
regex-syntax = "0.8"
