[package]
name = "ruga"
version = "0.1.0"
edition = "2021"
publish = false

[dependencies]
fnv = "1.0"
specs = "0.7"
clap = "2"
time = "0.1"
rand = "0.3"
