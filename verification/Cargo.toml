[package]
name = "apio"
version = "0.1.0"
edition = "2021"
publish = false

[dependencies]
clap = { version = "4", features = ["derive"] }
libloading = "*"
log = "0.4"
walkdir = "2"
y4m = "*"
