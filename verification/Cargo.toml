[package]
name = "wastebin"
version = "0.1.0"
edition = "2021"
publish = false

[dependencies]
syntect = { version = "*", default-features = false, features = ["default-fancy"] }
time = "*"
