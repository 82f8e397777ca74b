[package]
name = "file_watch"
version = "0.1.0"
edition = "2021"
publish = false

[dependencies]
globset = "0.4"
ignore = "0.4"
log = "0.4"
notify = "8"
tokio = { version = "1", features = ["rt", "sync"] }
url = "2"
