[package]
name = "elite_shield_tester"
version = "0.1.0"
edition = "2021"
publish = false

[dependencies]
csv = "*"
itertools = "*"
serde = { version = "*", features = ["derive"] }
structopt = "*"
