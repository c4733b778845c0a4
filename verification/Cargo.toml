[package]
name = "todo_md"
version = "0.1.0"
edition = "2021"
publish = false

[dependencies]
strsim = "*"
similar = "*"
uuid = { version = "*", features = ["v4"] }
chrono = "*"
anyhow = "*"
dirs = "*"
dotenvy = "*"
