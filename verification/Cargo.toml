[package]
name = "proxy_modify"
version = "0.1.0"
edition = "2021"
publish = false

[dependencies]
cookie = "0.16"
http = "0.2"
hyper = "0.14"
regex = "1"
serde = { version = "1", features = ["derive"] }
