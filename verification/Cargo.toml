[package]
name = "maple_core"
version = "0.1.0"
edition = "2021"
publish = false

[dependencies]
iced-x86 = "1.21"
serde = { version = "1", features = ["derive"] }
serde_json = "1"
