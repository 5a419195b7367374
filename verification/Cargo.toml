[package]
name = "pipe"
version = "0.1.0"
edition = "2021"
publish = false

[dependencies]
regex = "=1.13.1"
escapade = "=0.0.3"
pest = "=2.9.5"
