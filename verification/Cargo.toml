[package]
name = "signature_scrubber"
version = "0.1.0"
edition = "2021"
publish = false

[dependencies]
clap = { version = "=4.6.7", features = ["derive"] }
clap-num = "=1.2.0"
encoding_rs = "=0.8.42"
once_cell = "=1.21.4"
serde = { version = "=1.0.229", features = ["derive"] }
tokio = { version = "=1.54.1", features = ["rt-multi-thread", "macros"] }
toml = "0.8"
