[package]
name = "quorum_node"
version = "0.1.0"
edition = "2021"
publish = false

[dependencies]
tokio = { version = "1", features = ["full"] }
uuid = { version = "1", features = ["v4"] }

[dev-dependencies]
serde_json = { version = "1", features = ["preserve_order"] }
