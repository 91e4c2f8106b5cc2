[package]
name = "package_usage"
version = "0.1.0"
edition = "2021"

[dependencies]
clap = "2"

[dev-dependencies]
regex = "1"
