[package]
name = "rust_manager"
version = "0.1.0"
edition = "2021"
publish = false

[dependencies]
clap = "4"
ctrlc = "3"
dirs = "5"
toml = "0.8"
