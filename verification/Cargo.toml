[package]
name = "chat_cli"
version = "0.1.0"
edition = "2021"
publish = false

[dependencies]
serde_json = "1"
clap = { version = "4", features = ["derive"] }
dirs = "*"
futures = "0.3"
reqwest = { version = "0.12", default-features = false, features = ["stream"] }
rustix = { version = "*", features = ["process"] }
tokio = { version = "1", features = ["macros", "rt-multi-thread"] }
