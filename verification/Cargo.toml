[package]
name = "stratego"
version = "0.1.0"
edition = "2021"
publish = false

[dependencies]
rand = "0.9"
ordered-float = "*"
tch = "*"
bincode = "2"
clap = { version = "4", features = ["derive"] }
