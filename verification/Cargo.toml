[package]
name = "cta_bench"
version = "0.1.0"
edition = "2021"
publish = false

[dependencies]
rand = "=0.8.8"
rand_chacha = "=0.3.1"
serde = { version = "=1.0.229", features = ["derive"] }
serde_json = "=1.0.154"
sha2 = "=0.10.9"
hex = "=0.4.3"
regex = "=1.13.1"
clap = { version = "=4.6.7", features = ["derive"] }
anyhow = "=1.0.104"
walkdir = "=2.5.0"
time = { version = "0.3", features = ["formatting"] }
