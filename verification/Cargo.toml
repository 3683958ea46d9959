[package]
name = "octree_art"
version = "0.1.0"
edition = "2021"
publish = false

[dependencies]
cgmath = "*"
clap = "*"
ply-rs = "*"
stl_io = "*"
