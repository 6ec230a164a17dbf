[package]
name = "dma_modeling"
version = "0.1.0"
edition = "2021"
publish = false

[dependencies]
anyhow = "1"
bincode = "1"
clap = { version = "4", features = ["derive"] }
endiannezz = "*"
env_logger = "0.11"
fxhash = "0.2"
indexmap = { version = "2", features = ["serde"] }
itertools = "0.13"
log = "0.4"
memmap = "0.7"
regex = "1"
serde = { version = "1", features = ["derive"] }
serde_yaml = "0.9"
