[package]
name = "fifo_gpu"
version = "0.1.0"
edition = "2021"
publish = false

[dependencies]
anyhow = "1"
arrow = { version = "53", default-features = false }
clap = { version = "4", features = ["derive"] }
cudarc = { version = "0.12", default-features = false, features = ["std", "driver", "nvrtc", "cuda-12050"] }
indicatif = "0.17"
memmap2 = "0.9"
parquet = { version = "53", default-features = false, features = ["arrow", "zstd"] }
rand = "0.8"
rand_chacha = "0.3"
rand_distr = "0.4"
serde = { version = "1", features = ["derive"] }
serde_json = "1"
