[package]
name = "podreplay"
version = "0.1.0"
edition = "2021"
publish = false

[dependencies]
chrono = "*"
chronoutil = "*"
diligent-date-parser = "*"
