[package]
name = "blackboard"
version = "0.1.0"
edition = "2021"
publish = false

[dependencies]
clap = { version = "4", features = ["derive"] }
dirs = "5"
libc = "0.2"
rusqlite = { version = "0.31", features = ["bundled"] }
serde_json = "1"
