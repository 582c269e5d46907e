[package]
name = "xeno_canto_scraper"
version = "0.1.0"
edition = "2021"
publish = false

[dependencies]
url = "*"
reqwest = { version = "*", default-features = false, features = ["blocking"] }
scraper = "*"
threadpool = "*"

[dev-dependencies]
csv = "*"
