[package]
name = "nix-du"
version = "0.1.0"
edition = "2021"
publish = false

[dependencies]
fixedbitset = "0.1"
memchr = "2"
petgraph = "0.4"
walkdir = "2"
