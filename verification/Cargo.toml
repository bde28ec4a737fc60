[package]
name = "samara_signals"
version = "0.1.0"
edition = "2021"
publish = false

[dependencies]
slotmap = "1"
serde = { version = "1", features = ["derive"] }
futures-channel = "0.3"
futures-util = "0.3"
