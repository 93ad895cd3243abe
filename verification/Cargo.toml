[package]
name = "mcbans"
version = "0.1.0"
edition = "2021"
publish = false

[dependencies]
rust-crypto = "0.2"
cidr-utils = "0.5"
clap = "*"
rayon = "*"
