[package]
name = "swarm_fitness"
version = "0.1.0"
edition = "2021"
publish = false

[dependencies]
rand = "0.8"
tokio = { version = "1", features = ["rt-multi-thread"] }
futures = "0.3"
sqlite = "*"
