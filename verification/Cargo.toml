[package]
name = "lsb_stego"
version = "0.1.0"
edition = "2021"
publish = false

[dependencies]
crc = "3"
png = "0.17"
clap = { version = "4", features = ["derive"] }
