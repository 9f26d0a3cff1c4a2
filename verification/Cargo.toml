[package]
name = "git_biasect"
version = "0.1.0"
edition = "2021"
publish = false

[dependencies]
argh = "0.1"

[dev-dependencies]
rand = "=0.8.5"
rand_distr = "=0.4.3"
