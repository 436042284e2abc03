[package]
name = "ztask"
version = "0.1.0"
edition = "2021"
publish = false

[dependencies]
chrono = "0.4"
uuid = { version = "1", features = ["v4"] }
clap = { version = "4", features = ["derive"] }
colored = "2"
shellexpand = "3"
tempfile = "3"
