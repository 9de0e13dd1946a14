[package]
name = "blend"
version = "0.1.0"
edition = "2021"
publish = false

[dependencies]
anyhow = "=1.0.104"
clap = { version = "=4.6.7", features = ["derive"] }
console = "=0.16.6"
globset = "=0.4.21"
hostname = "*"
indexmap = "=2.14.2"
nickel-lang = "=2.2.0"
nickel-lang-parser = "=0.4.0"
rayon = "=1.12.0"
regex = "=1.13.1"
serde = { version = "=1.0.229", features = ["derive"] }
serde_json = { version = "=1.0.154", features = ["preserve_order"] }
toml = "=1.1.8"
walkdir = "=2.5.0"
