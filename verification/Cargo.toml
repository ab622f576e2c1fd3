[package]
name = "chewing"
version = "0.1.0"
edition = "2021"
publish = false

[dev-dependencies]
der = { version = "0.7", features = ["std", "derive"] }
