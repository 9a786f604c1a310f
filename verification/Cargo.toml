[package]
name = "poh_core"
version = "0.1.0"
edition = "2021"
publish = false

[dependencies]
sha2 = "*"
bzip2 = "*"
flate2 = "*"
zstd = "*"
bincode = "1"
serde = { version = "1", features = ["derive"] }
