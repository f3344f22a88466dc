[package]
name = "ast_grep"
version = "0.1.0"
edition = "2021"
publish = false

[dependencies]
anyhow = "1"
crossterm = "*"
ignore = "0.4"
