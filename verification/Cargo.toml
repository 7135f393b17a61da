[package]
name = "codeowners"
version = "0.1.0"
edition = "2021"
publish = false

[dependencies]
anyhow = "1"
rayon = "1"
thread_local = "1"
walkdir = "2"
