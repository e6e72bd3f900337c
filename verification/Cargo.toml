[package]
name = "episode_renamer"
version = "0.1.0"
edition = "2021"
publish = false

[dev-dependencies]
regex = "1"
