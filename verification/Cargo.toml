[package]
name = "babel"
version = "0.1.0"
edition = "2021"
publish = false

[dependencies]
clap = { version = "3.2", default-features = false, features = ["std"] }
num = "0.4"
rand = "0.8"
