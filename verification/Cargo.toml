[package]
name = "moseiik"
version = "0.1.0"
edition = "2021"
publish = false

[dependencies]
image = { version = "0.25", default-features = false, features = ["png", "jpeg"] }
clap = { version = "4", features = ["derive"] }
threadpool = "1.8"
threadpool_scope = "0.1"
num_cpus = "1"
