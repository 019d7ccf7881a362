[package]
name = "bedrockrs_level"
version = "0.1.0"
edition = "2021"
publish = false

[dependencies]
byteorder = "1"
nbtx = "*"
serde = { version = "1", features = ["derive"] }
thiserror = "*"
vek = "*"
