[package]
name = "crate_diagram"
version = "0.1.0"
edition = "2021"
publish = false

[dependencies]
anyhow = "*"
cargo_toml = "*"
clap = { version = "*", features = ["derive"] }
rustdoc-types = "*"
serde_json = "*"
