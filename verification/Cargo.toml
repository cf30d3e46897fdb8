[package]
name = "ssam"
version = "0.2.0"
edition = "2021"
publish = false

[dependencies]
clap = "2"
rand = "0.7"
rand_pcg = "0.2"
