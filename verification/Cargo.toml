[package]
name = "font_gen"
version = "0.1.0"
edition = "2021"
publish = false

[dependencies]
sled = "0.34"
fastrand = "1"
tide = "0.16"
async-std = "1"
rust-argon2 = "1"
