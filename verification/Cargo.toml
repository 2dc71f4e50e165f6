[package]
name = "sef_core"
version = "0.1.0"
edition = "2021"
publish = false

[dependencies]
bitcoin = "0.32"
clap = { version = "4", features = ["derive"] }
rand = "0.8"
rand_chacha = "0.3"
rand_distr = "0.4"
