[package]
name = "arxml_diff"
version = "0.1.0"
edition = "2021"
publish = false

[dependencies]
anyhow = "1"
clap = { version = "4", features = ["derive"] }
crossterm = "*"
quick-xml = "*"
ratatui = "*"
similar = "2"
