[package]
name = "projscan"
version = "0.1.0"
edition = "2021"
publish = false

[dependencies]
loc = "*"
walkdir = "*"
fs_extra = "*"
tokio = { version = "*", features = ["rt", "rt-multi-thread", "macros", "time", "sync"] }
tokio-util = "*"
serde = { version = "*", features = ["derive"] }
