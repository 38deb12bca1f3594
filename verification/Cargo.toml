[package]
name = "xp_vox_engine"
version = "0.1.0"
edition = "2021"
publish = false

[dependencies]
dot_vox = "4.1"
glam = "0.13"
noise = "0.7"
