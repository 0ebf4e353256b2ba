[package]
name = "peerguard"
version = "0.1.0"
edition = "2021"
publish = false

[dependencies]
axum = "*"
inotify = "*"
local-ip-address = "*"
serde = { version = "*", features = ["derive"] }
tokio = { version = "*", features = ["rt-multi-thread", "net", "macros", "time"] }
tower-http = { version = "*", features = ["fs"] }
