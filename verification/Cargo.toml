[package]
name = "krecviz"
version = "0.1.0"
edition = "2021"
publish = false

[dependencies]
anyhow = "*"
clap = { version = "*", features = ["derive"] }
env_logger = "*"
image = { version = "*", default-features = false }
krec = "*"
log = "*"
nalgebra = "*"
parry3d = "*"
stl_io = "*"
urdf-rs = "*"
