[package]
name = "token_histogram"
version = "0.1.0"
edition = "2021"
publish = false

[dependencies]
flate2 = "1"
clap = { version = "4", features = ["derive"] }
rayon = "1"
indicatif = "0.17"

[dev-dependencies]
tar = "0.4"
serde_json = "1"
