[package]
name = "posterust"
version = "0.1.0"
edition = "2021"
publish = false

[dependencies]
image = "0.22"
palette = "0.5"
structopt = "0.3"
