[package]
name = "calendar_overlap"
version = "0.1.0"
edition = "2021"
publish = false

[dependencies]
petgraph = "0.6"
uuid = { version = "1", features = ["v4"] }
log = "0.4"
console_log = "0.2"
dioxus = { version = "0.2", features = ["web"] }
