[package]
name = "nure-queue"
version = "0.1.0"
edition = "2021"
publish = false

[dependencies]
arbitrary = { version = "=1.5.0", features = ["derive"] }
libfuzzer-sys = "=0.4.13"
loom = "=0.7.2"
