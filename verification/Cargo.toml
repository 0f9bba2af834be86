[package]
name = "git_pincer_desktop"
version = "0.1.0"
edition = "2021"
publish = false

[dependencies]
serde = { version = "1", features = ["derive"] }
serde_json = "1"
similar = "3.1"
thiserror = "2"
