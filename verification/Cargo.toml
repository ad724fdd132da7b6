[package]
name = "rotor_wheel"
version = "0.5.0"
edition = "2021"
publish = false

[dependencies]
log = "0.4"
tokio = { version = "1", features = ["macros", "rt", "sync", "time"] }
