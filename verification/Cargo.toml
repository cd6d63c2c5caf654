[package]
name = "whatsmyip"
version = "0.1.0"
edition = "2021"
publish = false

[dependencies]
hyper = "0.10"
igd = "0.12"
rand = "0.8"
