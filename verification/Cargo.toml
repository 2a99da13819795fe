[package]
name = "logic_analyzer"
version = "0.1.0"
edition = "2021"
publish = false

[dependencies]
itertools = "*"
comfy-table = "*"
ratatui = "*"
crossterm = "*"
