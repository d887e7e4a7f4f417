[package]
name = "geoworld"
version = "0.1.0"
edition = "2021"
publish = false

[dependencies]
croaring = "=2.8.0"
rstar = "=0.13.0"
s2 = "=0.2.0"
