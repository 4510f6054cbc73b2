[package]
name = "sticky_note"
version = "0.1.0"
edition = "2021"
publish = false

[dependencies]
chrono = "0.4"
serde = { version = "1", features = ["derive"] }
serde_json = "1"
cocoa = "*"
objc = "0.2"
block = "0.1"
