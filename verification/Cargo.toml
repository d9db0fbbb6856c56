[package]
name = "supersingular_elliptic_curve"
version = "0.1.0"
edition = "2021"

[dependencies]
num-prime = "*"
rand = "*"
