[package]
name = "dotty"
version = "0.1.0"
edition = "2021"
publish = false

[dependencies]
anyhow = "1"
clap = { version = "4", features = ["derive"] }
colored = "2"
fs_extra = "1"
serde = { version = "1", features = ["derive"] }
shellexpand = "3"
tera = "1"
toml = "0.8"
