[package]
name = "cogtiff"
version = "0.1.0"
edition = "2021"
publish = false

[dependencies]
weezl = "0.1"
anyhow = "1"
thread_local = "1"
