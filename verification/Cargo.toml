[package]
name = "spigot_pi"
version = "0.1.0"
edition = "2021"
publish = false

[dependencies]
mpi = { version = "0.8", default-features = false }
