[package]
name = "collab_stream"
version = "0.1.0"
edition = "2021"
publish = false

[dependencies]
redis = "=0.32.7"
serde = { version = "=1.0.229", features = ["derive"] }
serde_json = "=1.0.151"
yrs = "*"
zstd = "=0.13.3"

[dev-dependencies]
bincode = "=1.3.3"
prost = "=0.13.5"
