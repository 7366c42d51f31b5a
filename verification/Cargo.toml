[package]
name = "peerkv"
version = "0.1.0"
edition = "2021"
publish = false

[dependencies]
mac_address = "*"
structopt = "0.3"
tokio = { version = "1", features = ["full"] }
