[package]
name = "field_expr"
version = "0.1.0"
edition = "2021"
publish = false

[dependencies]
anyhow = "1"
env_logger = "0.11"
log = "0.4"
rand = "0.8"
rand_xoshiro = "0.6"
rug = "1"
seq-macro = "0.3"
