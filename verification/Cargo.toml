[package]
name = "sumcheck"
version = "0.1.0"
edition = "2021"
publish = false

[dependencies]
ark-ff = "*"
ark-bn254 = "*"
ark-poly = "*"
