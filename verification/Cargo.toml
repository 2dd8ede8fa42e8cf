[package]
name = "navigator"
version = "0.1.0"
edition = "2021"
publish = false

[dependencies]
feed-rs = "*"
scraper = "*"
url = "*"
reqwest = { version = "*", default-features = false, features = ["blocking"] }
