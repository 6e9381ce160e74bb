[package]
name = "tig_review"
version = "0.1.0"
edition = "2021"
publish = false

[dependencies]
anyhow = "1"
arboard = "3"
crossterm = "0.28"
ratatui = "0.29"
regex = "1"
