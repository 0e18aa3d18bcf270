[package]
name = "cx_synth"
version = "0.1.0"
edition = "2021"
publish = false

[dependencies]
bimap = "*"
clap = { version = "*", features = ["derive"] }
fxhash = "*"
itertools = "*"
priority-queue = "*"
