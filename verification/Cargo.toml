[package]
name = "nibble_link"
version = "0.1.0"
edition = "2021"
publish = false

[dependencies]
reed-solomon = "0.2"
ansi_term = "0.12"
indicatif = "0.17"
serialport = { version = "4", default-features = false }
