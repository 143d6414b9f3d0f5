[package]
name = "nbs_fractal"
version = "0.1.0"
edition = "2021"
publish = false

[dependencies]
counter = "=0.7.1"
itertools = "=0.15.0"
rsnbs = "=0.1.12"
mcdata = "=0.4.0"
rustmatica = "=0.5.2"
clap = { version = "=4.6.7", features = ["derive"] }
