[package]
name = "rslab"
version = "1.0.0"
edition = "2021"
publish = false

[dependencies]
num-complex = "0.4"
rayon = "1"
serde = { version = "1", features = ["derive"] }
