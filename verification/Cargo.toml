[package]
name = "sde_sim"
version = "0.1.0"
edition = "2021"
publish = false

[dependencies]
evalexpr = "*"
rand = "*"
rand_chacha = "*"
sobol = "*"
