[package]
name = "resident_core"
version = "0.1.0"
edition = "2021"
publish = false

[dependencies]
sha2 = "0.10"
hex = "0.4"
zstd = "0.13"
memmap2 = "0.9"
serde = { version = "1", features = ["derive"] }
serde_json = "1"
anyhow = "1"
clap = { version = "4", features = ["derive"] }
rayon = "1"
rustfft = "6"
thiserror = "2"
tempfile = "3"
