[package]
name = "jt"
version = "0.1.0"
edition = "2021"
publish = false

[dependencies]
clap = { version = "4", features = ["derive"] }
colored_json = "*"
regex = "1"
serde_json = { version = "1", features = ["preserve_order"] }
