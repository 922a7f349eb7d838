[package]
name = "kdtree"
version = "0.7.0"
edition = "2021"
publish = false

[dependencies]
num-traits = "0.2"
thiserror = "1"
serde = { version = "1", features = ["derive"] }
