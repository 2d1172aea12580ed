[package]
name = "microgpt"
version = "0.1.0"
edition = "2021"
publish = false

[dependencies]
rand = "*"
rand_distr = "*"
uuid = { version = "*", features = ["v4"] }
