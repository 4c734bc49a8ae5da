[package]
name = "bogchamp"
version = "0.1.0"
edition = "2021"
publish = false

[dependencies]
rand = "0.8"
serde = { version = "1", features = ["derive"] }
serde_json = "1"
actix-web = "3"
actix-rt = "1"
actix-files = "0.5"
tera = "1"
futures = "0.3"
reqwest = { version = "0.11", default-features = false, features = ["blocking"] }
