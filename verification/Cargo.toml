[package]
name = "refgraph"
version = "0.1.0"
edition = "2021"
publish = false

[dependencies]
petgraph = "*"
serde_json = "1"
clap = { version = "4", features = ["derive"] }
indicatif = "*"
rayon = "1"
walkdir = "2"
