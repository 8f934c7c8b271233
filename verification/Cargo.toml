[package]
name = "qvp_core"
version = "0.1.0"
edition = "2021"
publish = false

[dependencies]
woofwoof = "=1.0.2"
ttf-parser = "=0.25.1"
kurbo = "=0.13.1"
