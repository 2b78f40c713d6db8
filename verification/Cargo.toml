[package]
name = "easyversion"
version = "0.1.0"
edition = "2021"
publish = false

[dependencies]
bsdiff = "*"
bzip2 = "*"
serde = { version = "1", features = ["derive"] }
ron = "*"
dirs = "*"
walkdir = "*"
names = "*"
