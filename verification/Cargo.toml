[package]
name = "salph"
version = "1.0.0"
edition = "2021"
publish = false

[dependencies]
clap = { version = "=3.2.25", features = ["derive", "env"] }
colored = "=3.1.1"
indexmap = "=2.14.2"
rust-embed = { version = "=8.13.0", features = ["interpolate-folder-path"] }
substring = "=1.4.5"
tabular = "=0.2.0"
