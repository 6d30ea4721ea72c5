[package]
name = "moros_game"
version = "0.1.0"
edition = "2021"
publish = false

[dependencies]
nolock = "*"
spin = "*"
x86_64 = "*"
