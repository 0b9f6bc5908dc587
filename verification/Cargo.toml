[package]
name = "signals"
version = "0.1.0"
edition = "2021"
publish = false

[dependencies]
rand = "0.8"
crossterm = "0.28"
ratatui = "0.29"
indicatif = "0.17"
num_cpus = "1"
once_cell = "1"
