[package]
name = "magic_cap"
version = "0.1.0"
edition = "2021"
publish = false

[dependencies]
aes = "0.8"
cipher = "0.4"
ctr = "0.9"
getrandom = "0.3"
rayon = "1"
