[package]
name = "checkers"
version = "0.1.0"
edition = "2021"
publish = false

[dependencies]
arrayvec = "0.7"
rand = "0.9"
itertools = "0.14"
hashbrown = "0.15"
clap = { version = "4", features = ["derive"] }
anyhow = "1"
ai-tournament = "*"
