[package]
name = "exaloglog"
version = "0.9.0"
edition = "2021"
publish = false

[dependencies]
rayon = "1"
serde = "1"
