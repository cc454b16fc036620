[package]
name = "lsb_release"
version = "0.1.0"
edition = "2021"
publish = false

[dependencies]
csv = "1"
voca_rs = "1"
uname-rs = "*"
clap = { version = "4", features = ["derive"] }
