[package]
name = "narrator_validator"
version = "1.7.0"
edition = "2021"
publish = false

[dependencies]
semver = "1"
serde = "1"
serde_yaml = "0.9"
