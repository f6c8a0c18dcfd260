[package]
name = "terra"
version = "0.1.0"
edition = "2021"
publish = false

[dependencies]
unicode-width = "0.2"
pulldown-cmark = { version = "0.12", default-features = false }
syntect = { version = "5", default-features = false, features = ["default-fancy"] }
ratatui = "0.29"
crossterm = "0.28"
clap = { version = "4", features = ["derive"] }
