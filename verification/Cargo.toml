[package]
name = "bit"
version = "0.1.0"
edition = "2021"
publish = false

[dependencies]
anyhow = "=1.0.104"
chrono = "=0.4.45"
colored = "=3.1.1"
file-guard = "*"
flate2 = "=1.1.10"
is_executable = "=1.0.6"
minus = { version = "=5.8.0", features = ["static_output"] }
rand = "=0.8.8"
regex = "=1.13.1"
sha1 = "=0.10.7"
thiserror = "=2.0.21"
tokio = { version = "=1.54.1", features = ["rt-multi-thread", "macros", "fs", "io-util"] }
walkdir = "=2.5.0"
