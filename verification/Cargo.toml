[package]
name = "rhyme_checker"
version = "0.1.0"
edition = "2021"
publish = false

[dependencies]
anyhow = "=1.0.104"
bincode = { version = "=2.0.1", features = ["serde"] }
clap = { version = "=4.6.7", features = ["derive"] }
colored = "=2.2.0"
palette = "=0.7.7"
roxmltree = "=0.20.0"
serde = { version = "=1.0.229", features = ["derive"] }
serde_json = { version = "=1.0.154", features = ["preserve_order"] }
