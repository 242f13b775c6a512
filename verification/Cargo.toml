[package]
name = "anyangle"
version = "0.1.0"
edition = "2021"
publish = false

[dependencies]
approx = "*"
stable-vec = "*"
num-traits = "*"
rstar = "*"
polygon_unionfind = "*"
macroquad = { version = "*", default-features = false }
