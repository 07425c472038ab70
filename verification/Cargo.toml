[package]
name = "bucket_operate"
version = "0.1.0"
edition = "2021"
publish = false

[dependencies]
jammdb = "*"
serde = { version = "1", features = ["derive"] }
