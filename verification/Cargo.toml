[package]
name = "meteora"
version = "0.1.0"
edition = "2021"
publish = false

[dependencies]
chrono = "0.4"
colorgrad = "0.6"
ehttp = "*"
magic-crypt = "3"
rand = "0.8"
rand_chacha = "0.3"
