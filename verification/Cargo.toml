[package]
name = "needs"
version = "0.1.0"
edition = "2021"
publish = false

[dependencies]
which = "*"
xshell = "*"
clap = { version = "*", features = ["derive"] }
colored = "*"
