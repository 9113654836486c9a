[package]
name = "stacklang"
version = "0.1.0"
edition = "2021"
publish = false

[dependencies]
uuid = { version = "1", features = ["v4"] }
regex = "1"
clap = "4"
