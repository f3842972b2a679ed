[package]
name = "babyvector"
version = "0.1.0"
edition = "2021"
publish = false

[dependencies]
fs4 = { version = "0.13", features = ["sync"] }
memmap2 = "0.9"
serde = { version = "1", features = ["derive"] }
serde_json = "1"
thiserror = "2"

[dev-dependencies]
rand = "0.9"
