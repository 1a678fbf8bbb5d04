[package]
name = "taggit"
version = "0.1.0"
edition = "2021"
publish = false

[dependencies]
clap = { version = "2.34", default-features = false }
serde = { version = "1", features = ["derive"] }
serde_json = "1"
sha1 = "0.6"
