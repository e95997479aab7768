[package]
name = "nefvol"
version = "0.1.0"
edition = "2021"
publish = false

[dependencies]
num-bigint = "0.4"
num-integer = "0.1"
num-traits = "0.2"
serde_json = "1"
clap = { version = "4", features = ["derive"] }
rayon = "1"
