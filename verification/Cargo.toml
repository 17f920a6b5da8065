[package]
name = "timepour"
version = "0.1.2"
edition = "2021"
publish = false

[dependencies]
clap = "4.5"
color-eyre = "0.6"
crossterm = "0.28"
ratatui = "0.29"
