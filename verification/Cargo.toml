[package]
name = "doom-launcher"
version = "0.1.0"
edition = "2021"
publish = false

[dependencies]
dirs = "=7.0.0"
rfd = { version = "=0.17.2", default-features = false, features = ["xdg-portal"] }
slint = { version = "=1.18.1", default-features = false, features = ["std", "compat-1-2"] }
