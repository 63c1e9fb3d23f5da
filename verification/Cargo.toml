[package]
name = "state_space"
version = "0.1.0"
edition = "2021"
publish = false

[dependencies]
arraydeque = "0.5"
ethers = { version = "2", default-features = false, features = ["ws"] }
serde_json = "1"
thiserror = "1"
tokio = { version = "1", features = ["sync", "rt"] }
