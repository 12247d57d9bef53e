[package]
name = "tree2tui"
version = "0.1.0"
edition = "2021"
publish = false

[dependencies]
anyhow = "*"
clap = { version = "*", features = ["derive"] }
console = "*"
cursive = "*"
cursive_tree_view = "*"
regex = "*"
