[package]
name = "n_puzzle"
version = "0.1.0"
edition = "2021"
publish = false

[dependencies]
argparse = "0.2"
crossterm = "0.8"
crossterm_terminal = "0.2"
