[package]
name = "git_author_stats"
version = "0.1.0"
edition = "2021"
publish = false

[dependencies]
hashbrown = "*"
chrono = "*"
clap = { version = "*", features = ["derive"] }
threadpool = "*"
