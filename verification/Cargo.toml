[package]
name = "sayit"
version = "0.1.0"
edition = "2021"
publish = false

[dependencies]
regex-automata = "0.4"
fastrand = "2"
serde = { version = "1", features = ["derive"] }
ron = "0.8"
clap = { version = "4", features = ["derive"] }
