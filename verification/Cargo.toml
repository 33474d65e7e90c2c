[package]
name = "zenoh-router"
version = "0.1.0"
edition = "2021"
publish = false

[dependencies]
uuid = "0.8"
spin = "0.5"
async-std = "1"
async-trait = "0.1"
rand = "0.7"
