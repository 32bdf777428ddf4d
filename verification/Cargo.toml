[package]
name = "go19"
version = "0.1.0"
edition = "2021"
publish = false

[dependencies]
bitvec = "=1.1.1"
bincode = "=1.3.3"
lz4_flex = "=0.11.6"
serde = { version = "=1.0.229", features = ["derive"] }
serde_json = "=1.0.154"
clap = { version = "=4.6.7", features = ["derive"] }
crossterm = "=0.28.1"
ctrlc = "=3.5.2"
rayon = "=1.12.0"
toml = "=0.8.23"
tempfile = "=3.27.0"
candle-core = "0.9"
candle-nn = "0.9"
tensorboard-rs = "*"
