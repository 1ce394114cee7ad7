[package]
name = "microknot_core"
version = "0.1.0"
edition = "2021"
publish = false

[dependencies]
serde = { version = "=1.0.229", features = ["derive"] }
serde_json = "=1.0.154"
regex = "=1.13.1"
uuid = { version = "=1.29.0", features = ["v4"] }
ureq = "=3.5.1"
rusqlite = { version = "=0.41.1", features = ["bundled"] }
feather = { version = "=0.8.1", features = ["json"] }
rust-embed = "=8.13.0"
clap = { version = "=4.6.7", features = ["derive", "env"] }
thiserror = "=2.0.21"
