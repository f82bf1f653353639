[package]
name = "molview"
version = "0.1.0"
edition = "2021"
publish = false

[dependencies]
raylib-sys = "=6.0.0"
