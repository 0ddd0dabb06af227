[package]
name = "rat_storage"
version = "0.1.0"
edition = "2021"
publish = false

[dependencies]
bincode = "1"
serde = { version = "1", features = ["derive"] }
parking_lot = "*"
crossbeam = "*"
rayon = "*"
thiserror = "*"
tracing = "*"
tracing-subscriber = "*"
