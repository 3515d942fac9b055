[package]
name = "bpr"
version = "0.1.0"
edition = "2021"
publish = false

[dependencies]
rand = "0.9"
ez-bitset = "*"
statrs = "*"
serde = "1"
serde_derive = "1"
serde_json = "1"
structopt = "0.3"
rayon = "1"
num_cpus = "1"
itertools = "*"
highs = "*"
