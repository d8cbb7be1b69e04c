[package]
name = "lib_gomoku"
version = "0.1.0"
edition = "2021"
publish = false

[dependencies]
colored = "2"
signal-hook = "0.3"
