[package]
name = "maps_thingy"
version = "0.1.0"
edition = "2021"
publish = false

[dependencies]
quick-xml = "0.31"
base64 = "0.22"
zip = { version = "2", default-features = false, features = ["deflate"] }
anyhow = "1"
clap = { version = "4", features = ["derive"] }
