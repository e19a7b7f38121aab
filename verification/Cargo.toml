[package]
name = "le_mutate"
version = "0.1.0"
edition = "2021"
publish = false

[dependencies]
fastrand = "*"
rayon = "*"
serde_json = "*"
structopt = "*"
