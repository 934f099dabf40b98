[package]
name = "open-bar"
version = "0.1.0"
edition = "2021"
publish = false

[dependencies]
cpal = "0.15"
rubato = "0.16"
serde = { version = "1", features = ["derive"] }
serde_json = "1"
symphonia = { version = "0.5", features = ["all"] }
thiserror = "2"
tiny_http = "0.12"
ureq = { version = "2", features = ["json"] }
wasapi = "0.22"
