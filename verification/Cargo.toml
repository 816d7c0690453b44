[package]
name = "seekdb_async"
version = "0.1.0"
edition = "2021"
publish = false

[dependencies]
mysql_async = { version = "0.36", default-features = false, features = ["minimal-rust"] }
tokio = { version = "1", features = ["rt", "sync"] }
