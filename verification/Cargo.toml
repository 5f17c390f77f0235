[package]
name = "puker"
version = "0.1.0"
edition = "2021"
publish = false

[dependencies]
rand = "0.8"
glam = { version = "0.20", features = ["mint"] }
ggez = "0.7"
