[package]
name = "snapshot_diff"
version = "0.1.0"
edition = "2021"
publish = false

[dependencies]
anstream = "=1.0.0"
anstyle = "=1.0.14"
anyhow = "=1.0.104"
clap = { version = "=4.6.7", features = ["derive"] }
diffy = "=0.5.2"
jiff = "=0.2.38"
rabex = "=0.2.1"
rayon = "=1.12.0"
regex = "=1.13.1"
rustc-hash = "=2.1.3"
serde = { version = "=1.0.229", features = ["derive"] }
serde_json = { version = "=1.0.154", features = ["preserve_order", "float_roundtrip"] }
tempfile = "=3.27.0"
walkdir = "=2.5.0"
