[package]
name = "wager"
version = "0.1.0"
edition = "2021"
publish = false

[dependencies]
derive_more = { version = "1", features = ["display"] }
serde = { version = "1", features = ["derive"] }
