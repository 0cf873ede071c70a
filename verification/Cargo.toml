[package]
name = "win_toast_notifier"
version = "0.1.0"
edition = "2021"
publish = false

[dependencies]
tokio = { version = "1", features = ["rt-multi-thread", "sync", "macros", "time"] }
uuid = { version = "1", features = ["v4"] }
rand = "0.8"
