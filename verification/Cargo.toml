[package]
name = "reviewbuddy"
version = "0.1.0"
edition = "2021"
publish = false

[dependencies]
anyhow = "1"
clap = { version = "4", features = ["derive"] }
percent-encoding = "2"
serde = { version = "1", features = ["derive"] }
serde_json = "1"
similar = { version = "*", features = ["inline"] }
syntect = { version = "5", default-features = false, features = ["default-fancy"] }
tiny_http = "0.12"
