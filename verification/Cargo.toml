[package]
name = "routable_tiles"
version = "0.1.0"
edition = "2021"
publish = false

[dependencies]
anyhow = "*"
cached = "*"
clap = "*"
flexbuffers = "*"
indicatif = "*"
priority-queue = "*"
rayon = "*"
reqwest = { version = "*", default-features = false, features = ["blocking", "gzip"] }
serde = { version = "*", features = ["derive"] }
serde_json = "*"
