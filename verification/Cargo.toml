[package]
name = "instar"
version = "0.1.0"
edition = "2021"
publish = false

[dependencies]
clap = { version = "4", features = ["derive"] }
flate2 = "1"
path-absolutize = "3"
tar = "0.4"
