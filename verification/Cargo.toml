[package]
name = "voxelize"
version = "0.1.0"
edition = "2021"
publish = false

[dependencies]
anyhow = "*"
argh = "*"
env_logger = "*"
indexmap = "*"
log = "*"
nalgebra = "*"
nom-gcode = "*"
rangemap = "*"
stopwatch = "*"
