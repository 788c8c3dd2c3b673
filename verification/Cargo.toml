[package]
name = "ferrumc_commands"
version = "0.1.0"
edition = "2021"
publish = false

[dependencies]
bevy_ecs = "*"
crossbeam-queue = "*"
rustyline = { version = "*", features = ["derive"] }
tokio = { version = "1", features = ["rt", "rt-multi-thread", "sync", "time"] }
tracing = "*"
