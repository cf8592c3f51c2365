[package]
name = "format_aliases"
version = "0.1.0"
edition = "2021"
publish = false

[dependencies]
colorized = "*"
clap = { version = "*", features = ["derive"] }
no_color = "*"
