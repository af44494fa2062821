[package]
name = "iox_core"
version = "0.1.0"
edition = "2021"
publish = false

[dependencies]
flate2 = "1"
serde_urlencoded = "0.7"
hyper = "0.14"
