[package]
name = "letterscan"
version = "0.1.0"
edition = "2021"
publish = false

[dependencies]
rand = "0.8"
image = "*"
actix-web = "4"
actix-multipart = "*"
futures = "0.3"
serde = { version = "1", features = ["derive"] }
