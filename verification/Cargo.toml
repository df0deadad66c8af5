[package]
name = "redis_core"
version = "0.1.0"
edition = "2021"
publish = false

[dependencies]
hex = "0.4"
mio = { version = "1", features = ["os-poll", "net"] }
clap = { version = "4", features = ["derive"] }
