[package]
name = "diffview"
version = "0.1.0"
edition = "2021"
publish = false

[dependencies]
similar = "2"
anyhow = "1"
crossterm = "*"
ratatui = "*"
syntect = "*"
