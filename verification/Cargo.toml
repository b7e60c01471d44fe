[package]
name = "dicomlite"
version = "0.1.0"
edition = "2021"

[dependencies]
encoding_rs = "*"
regex = "*"
image = { version = "*", default-features = false, features = ["png"] }
