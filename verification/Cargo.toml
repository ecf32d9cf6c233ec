[package]
name = "maptrax"
version = "0.1.0"
edition = "2021"
publish = false

[dependencies]
geo = { version = "=0.33.1", default-features = false }
