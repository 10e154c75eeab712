[package]
name = "boyer_moore"
version = "0.1.0"
edition = "2021"

[dependencies]
ansi_term = "0.12"
