[package]
name = "polygenic_score"
version = "0.1.0"
edition = "2021"
publish = false

[dependencies]
flate2 = "1"
rayon = "1"
clap = { version = "4", features = ["derive"] }
indicatif = "0.17"
