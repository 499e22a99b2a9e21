[package]
name = "i3_focus_last"
version = "0.1.0"
edition = "2021"
publish = false

[dependencies]
swayipc = "*"
serde = { version = "*", features = ["derive"] }
serde_json = "*"
signal-hook = "*"
gumdrop = "*"
