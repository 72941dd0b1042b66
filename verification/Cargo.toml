[package]
name = "orb"
version = "0.1.0"
edition = "2021"
publish = false

[dependencies]
anyhow = "1"
clap = { version = "4", features = ["derive"] }
crossbeam-utils = "0.8"
hound = "3"
thiserror = "2"

[dev-dependencies]
rand = "*"
