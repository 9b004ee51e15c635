[package]
name = "egaku"
version = "0.1.0"
edition = "2021"
publish = false

[dependencies]
unicode-segmentation = "1"
awase = "*"
ishou-tokens = "*"
serde = { version = "1", features = ["derive"] }
thiserror = "*"
zeroize = "1"

[dev-dependencies]
serde_json = "1"
