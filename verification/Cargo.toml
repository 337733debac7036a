[package]
name = "code_diary"
version = "0.1.0"
edition = "2021"
publish = false

[dependencies]
argh = "*"
chrono = "*"
color-print = "*"
requestty = "*"
sqlite = "*"
