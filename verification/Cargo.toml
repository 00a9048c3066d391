[package]
name = "tuic"
version = "0.1.0"
edition = "2021"
publish = false

[dependencies]
seahash = "*"
getopts = "*"
thiserror = "*"
quinn = "*"
tokio = { version = "*", features = ["io-util", "rt"] }
