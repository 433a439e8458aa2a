[package]
name = "sbfiles"
version = "0.2.0"
edition = "2021"
publish = false

[dependencies]
base64 = "0.13"
flate2 = "1"
tar = "0.4"
