[package]
name = "near_lisp_verified"
version = "0.1.0"
edition = "2021"
publish = false

[dependencies]
near-sdk = { version = "=5.6.0", features = ["unit-testing", "unstable"] }
serde_json = "=1.0.154"
