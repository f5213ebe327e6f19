[package]
name = "codevol"
version = "0.1.0"
edition = "2021"
publish = false

[dependencies]
clap = { version = "4", features = ["derive"] }
crossterm = "*"
ratatui = "*"
walkdir = "2"
