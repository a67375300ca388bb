[package]
name = "perf2pprof"
version = "0.1.0"
edition = "2021"
publish = false

[dependencies]
anyhow = "1"
clap = { version = "4", features = ["derive"] }
flate2 = "1"
prost = "*"
tempfile = "3"
