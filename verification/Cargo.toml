[package]
name = "rusty_database"
version = "0.1.0"
edition = "2021"
publish = false

[dependencies]
sqlparser = "0.25"
serde = { version = "1", features = ["derive"] }
serde_json = "1"
