[package]
name = "logfilter"
version = "0.1.0"
edition = "2021"
publish = false

[dependencies]
grep = "*"
slab = "*"
tokio = { version = "1", features = ["full"] }
tokio-util = "*"
inotify = "*"
futures-util = "*"
anyhow = "1"
