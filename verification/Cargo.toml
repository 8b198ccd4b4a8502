[package]
name = "quartz"
version = "0.1.0"
edition = "2021"
publish = false

[dependencies]
copypasta = { version = "=0.10.2", default-features = false, features = ["x11"] }
crossbeam-channel = "0.5"
fundsp = { version = "=0.18.2", default-features = false }
rosc = "=0.10.1"
serde = { version = "1", features = ["derive"] }
