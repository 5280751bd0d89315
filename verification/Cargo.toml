[package]
name = "symgraph"
version = "0.1.0"
edition = "2021"
publish = false

[dependencies]
clap = "*"
memmap = "*"
object = { version = "*", default-features = false, features = ["read"] }
