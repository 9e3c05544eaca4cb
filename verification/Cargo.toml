[package]
name = "wordle_bot"
version = "0.1.0"
edition = "2021"
publish = false

[dependencies]
bracket-random = "0.8"
serenity = "0.11"
tokio = { version = "1", features = ["macros", "rt-multi-thread"] }
reqwest = { version = "0.11", default-features = false, features = ["json", "rustls-tls"] }
serde = { version = "1", features = ["derive"] }
serde_json = "1"
ron = "0.8"
const_format = "0.2"
string-builder = "0.2"
