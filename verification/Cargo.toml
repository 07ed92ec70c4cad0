[package]
name = "openchamber"
version = "0.1.0"
edition = "2021"
publish = false

[dependencies]
base64 = "*"
serde_yaml = "*"
tokio = { version = "*", features = ["process", "rt-multi-thread", "io-util", "time", "sync", "macros"] }
reqwest = { version = "*", default-features = false }
nix = { version = "*", features = ["signal"] }
dirs = "*"
serde = { version = "*", features = ["derive"] }
serde_json = "*"
uuid = { version = "*", features = ["v4"] }
