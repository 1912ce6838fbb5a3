[package]
name = "mdblog"
version = "0.1.0"
edition = "2021"
publish = false

[dependencies]
markdown = "*"
axum = "*"
tokio = { version = "*", features = ["rt-multi-thread", "net", "macros"] }
clap = { version = "*", features = ["derive"] }
filetime = "*"
