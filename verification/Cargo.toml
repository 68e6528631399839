[package]
name = "tw_algorithms"
version = "0.1.0"
edition = "2021"
publish = false

[dependencies]
itertools = "*"
rand = "*"
clap = { version = "4", features = ["derive"] }
serde = { version = "1", features = ["derive"] }
serde_json = "1"
csv = "*"
indicatif = "*"
strum = { version = "*", features = ["derive"] }
thiserror = "*"
