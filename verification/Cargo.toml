[package]
name = "wfc_rs"
version = "0.1.0"
edition = "2021"
publish = false

[dependencies]
rand = "0.8"
png = "0.17"
gif = "0.12"
clap = { version = "4", features = ["derive"] }
anyhow = "1"
