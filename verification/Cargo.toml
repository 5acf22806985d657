[package]
name = "talon"
version = "0.1.0"
edition = "2021"
publish = false

[dependencies]
libafl = "0.16"
libafl_bolts = "0.16"
serde = { version = "1", features = ["derive"] }
serde_json = "1"
