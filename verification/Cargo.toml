[package]
name = "brc"
version = "0.1.0"
edition = "2021"
publish = false

[dependencies]
better-panic = "0.3"
dashmap = "5"
indicatif = "0.17"
memmap2 = "0.9"
once_cell = "1"
rand = "0.8"
rand_distr = "0.4"
rayon = "1"
serde = { version = "1", features = ["derive"] }
serde_json = "1"
