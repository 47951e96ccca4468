[package]
name = "mesh_history"
version = "0.1.0"
edition = "2021"
publish = false

[dependencies]
glob = "*"
which = "*"
