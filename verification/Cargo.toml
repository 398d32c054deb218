[package]
name = "mkw_spc"
version = "0.1.0"
edition = "2021"
publish = false

[dependencies]
clap = { version = "*", features = ["derive"] }
edit-distance = "*"
hex = "*"
sha1 = "*"
