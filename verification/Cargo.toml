[package]
name = "ground_control"
version = "0.1.0"
edition = "2021"
publish = false

[dependencies]
airmash-protocol = "*"
clap = "*"
env_logger = "*"
log = "*"
tokio = { version = "*", features = ["rt", "rt-multi-thread", "macros", "time"] }
url = "*"
