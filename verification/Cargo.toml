[package]
name = "rustman"
version = "0.1.0"
edition = "2021"
publish = false

[dependencies]
json = "*"
http_req = "*"
serde = { version = "1", features = ["derive"] }
toml = "*"
unchained = "*"
