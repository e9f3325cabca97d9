[package]
name = "browser_engine"
version = "0.1.0"
edition = "2021"
publish = false

[dependencies]
url = "2"
reqwest = { version = "0.12", features = ["blocking"] }
minifb = "0.27"
