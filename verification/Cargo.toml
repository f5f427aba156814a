[package]
name = "ppa"
version = "0.1.0"
edition = "2021"
publish = false

[dependencies]
aes-gcm = "*"
rand = "0.8"
home = "*"
