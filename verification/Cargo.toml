[package]
name = "krrust"
version = "0.1.0"
edition = "2021"
publish = false

[dependencies]
rand = "0.8"
num_cpus = "1"
image = { version = "0.24", default-features = false, features = ["png", "jpeg", "hdr"] }
indicatif = "0.17"
palette = "0.7"
rayon = "1"
serde_json = "1"
