[package]
name = "orgsidian"
version = "0.1.0"
edition = "2021"
publish = false

[dependencies]
chrono = "0.4"
tree-sitter = "*"
rusqlite = { version = "*", features = ["bundled"] }
rusqlite_migration = "*"
deadpool = "*"
tokio = { version = "1", features = ["rt", "rt-multi-thread", "sync", "macros"] }
serde = { version = "1", features = ["derive"] }
serde_json = "1"
thiserror = "*"
