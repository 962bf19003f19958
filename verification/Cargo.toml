[package]
name = "stick_ants"
version = "0.1.0"
edition = "2021"
publish = false

[dependencies]
rand = "0.8"
eyre = "0.6"
terminal_size = "0.3"
