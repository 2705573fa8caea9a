[package]
name = "perg"
version = "0.1.0"
edition = "2021"
publish = false

[dependencies]
clap = { version = "4", features = ["derive"] }
colored = "2"
futures = { version = "0.3", features = ["thread-pool"] }
lazy_static = "1"
