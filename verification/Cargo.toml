[package]
name = "go_web_interface"
version = "0.1.0"
edition = "2021"
publish = false

[dependencies]
sha-crypt = "=0.5.0"
rand = "=0.10.3"
