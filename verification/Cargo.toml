[package]
name = "wfc_too"
version = "0.1.0"
edition = "2021"
publish = false

[dependencies]
rand = "0.9"
colored = "*"
crossterm = "*"
petgraph = "*"
weighted_rand = "*"
