[package]
name = "aldr"
version = "0.1.0"
edition = "2021"
publish = false

[dependencies]
rand = "0.9"
rand_core = "0.9"
rand_distr = "0.5"
