[package]
name = "editor_core"
version = "0.1.0"
edition = "2021"
publish = false

[dependencies]
tokio = { version = "1", features = ["rt-multi-thread", "fs", "macros", "sync"] }
rfd = { version = "*", default-features = false, features = ["tokio", "xdg-portal"] }
