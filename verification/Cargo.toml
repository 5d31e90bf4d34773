[package]
name = "dotspace"
version = "0.1.0"
edition = "2021"
publish = false

[dependencies]
dotparser = "*"
petgraph = "*"
clap = { version = "*", features = ["derive"] }
