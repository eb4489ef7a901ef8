[package]
name = "workpool"
version = "0.1.0"
edition = "2021"
publish = false

[dependencies]
image = { version = "0.24", default-features = false, features = ["png"] }
pest = "2"
pest_derive = "2"
rand = "0.8"
