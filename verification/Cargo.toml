[package]
name = "oculante"
version = "0.1.0"
edition = "2021"
publish = false

[dependencies]
lexical-sort = "=0.3.1"
rand = "=0.8.8"
itertools = "=0.10.5"
rusqlite = { version = "=0.40.2", features = ["bundled"] }
walkdir = "=2.5.0"
image = { version = "=0.24.9", default-features = false }
clap = "3"
trash = "3"
