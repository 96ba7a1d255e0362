[package]
name = "dupes"
version = "0.1.0"
edition = "2021"
publish = false

[dependencies]
blake3 = { version = "1", features = ["pure"] }
walkdir = "2"
rayon = "1"
clap = { version = "4", features = ["cargo"] }
thiserror = "1"
