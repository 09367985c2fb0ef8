[package]
name = "yatzy"
version = "0.1.0"
edition = "2021"
publish = false

[dependencies]
rand = "0.8"
rayon = "1"
chrono = "0.4"
clap = { version = "4", features = ["derive"] }
colored = "2"
num-format = "0.4"
