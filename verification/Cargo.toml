[package]
name = "indentor"
version = "0.1.0"
edition = "2021"
publish = false

[dependencies]
regex = "1"
clap = { version = "4", features = ["derive"] }
colored = "2"
