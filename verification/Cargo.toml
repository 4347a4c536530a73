[package]
name = "naive_rhythm"
version = "0.1.0"
edition = "2021"
publish = false

[dependencies]
midly = "=0.5.3"
clap = { version = "=4.6.7", features = ["derive"] }
