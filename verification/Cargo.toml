[package]
name = "editor_lib"
version = "0.1.0"
edition = "2021"
publish = false

[dependencies]
quick-xml = "=0.37.5"
serde = { version = "1", features = ["derive"] }
anyhow = "1"
walkdir = "2"
zip = { version = "2", default-features = false, features = ["deflate"] }
