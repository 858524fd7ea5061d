[package]
name = "libchess"
version = "0.1.0"
edition = "2021"
publish = false

[dependencies]
rand = "0.8"
dashmap = "5"
rayon = "1"
thiserror = "1"
ansi_term = "0.12"
indicatif = "0.17"
