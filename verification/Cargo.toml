[package]
name = "kame"
version = "0.1.0"
edition = "2021"
publish = false

[dependencies]
anyhow = "=1.0.104"
clap = "=4.6.7"
colored = "=3.1.1"
dirs = "=6.0.0"
russh = { version = "=0.65.1", default-features = false, features = ["ring"] }
skim = { version = "=5.9.0", default-features = false }
tokio = { version = "=1.54.1", features = ["fs", "io-util", "process", "rt", "rt-multi-thread"] }
