[package]
name = "fa10"
version = "0.2.0"
edition = "2021"
publish = false

[dependencies]
anyhow = "1"
clap = { version = "4", features = ["derive"] }
crc32fast = "1"
fs2 = "0.4"
indicatif = "0.17"
sha2 = "0.10"
thiserror = "1"
