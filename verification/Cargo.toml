[package]
name = "merge2048"
version = "0.1.0"
edition = "2021"
publish = false

[dependencies]
rand = "=0.9.5"
burn = { version = "=0.14.0", default-features = false, features = ["std", "ndarray", "autodiff"] }
clap = { version = "=4.5.61", features = ["derive"] }
crossterm = "=0.29.0"
chrono = { version = "=0.4.45", default-features = false, features = ["clock"] }
