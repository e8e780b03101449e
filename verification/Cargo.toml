[package]
name = "kvadrat_strategy"
version = "0.1.0"
edition = "2021"
publish = false

[dependencies]
candle-core = { version = "0.9", default-features = false }
candle-nn = { version = "0.9", default-features = false }
chrono = "0.4"
ctrlc = "3"
flate2 = "1"
memmap2 = "0.9"
serde = { version = "1", features = ["derive"] }
serde_json = "1"
sha2 = "0.10"
