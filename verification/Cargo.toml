[package]
name = "cryptlib"
version = "0.1.0"
edition = "2021"
publish = false

[dependencies]
bcrypt = "*"
clap = { version = "*", features = ["derive"] }
crossterm = "*"
serde = { version = "*", features = ["derive"] }
serde_json = "*"
thiserror = "*"
walkdir = "*"
