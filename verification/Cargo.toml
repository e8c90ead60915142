[package]
name = "whatismyip"
version = "0.1.0"
edition = "2021"
publish = false

[dependencies]
clap = { version = "4", features = ["derive", "env"] }
futures = "0.3"
hickory-resolver = "0.25"
local-ip-address = "0.6"
miette = { version = "7", features = ["fancy"] }
tokio = { version = "1", features = ["macros", "rt-multi-thread", "sync", "time"] }
