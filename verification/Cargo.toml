[package]
name = "secret_manager"
version = "0.1.0"
edition = "2021"
publish = false

[dependencies]
magic-crypt = "*"
clap = { version = "4", features = ["derive"] }
dirs = "*"
keyring = "*"
