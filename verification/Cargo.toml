[package]
name = "contree"
version = "0.1.0"
edition = "2021"
publish = false

[dependencies]
rand = "0.9"
rustc-hash = "2"
serde = { version = "1", features = ["derive"] }
clap = { version = "4", features = ["derive"] }
coz = "0.1"
