[package]
name = "jobshop"
version = "0.1.0"
edition = "2021"
publish = false

[dependencies]
anyhow = "1"
ctrlc = "3"
rand = "0.8"
rand_xoshiro = "0.6"
rayon = "1"
structopt = "0.3"
