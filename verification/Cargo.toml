[package]
name = "plotoxide"
version = "0.1.0"
edition = "2021"
publish = false

[dependencies]
chrono = "*"
serde = { version = "*", features = ["derive"] }
serde_json = "*"
polars = { version = "*", default-features = false, features = ["csv", "parquet", "lazy", "temporal"] }
