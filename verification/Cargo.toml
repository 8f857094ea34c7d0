[package]
name = "yake"
version = "0.1.0"
edition = "2021"
publish = false

[dependencies]
serde = "1"
serde_derive = "1"
serde_yaml = "0.9"
walkdir = "2"
clap = "4"
colored = "2"
