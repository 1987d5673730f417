[package]
name = "rust_kart"
version = "0.1.0"
edition = "2021"
publish = false

[dependencies]
chrono = "0.4"
clap = { version = "4", features = ["derive"] }
comrak = { version = "*", default-features = false }
dirs = "*"
jiff = "*"
nix = { version = "*", features = ["signal"] }
rmcp = { version = "*", features = ["server", "macros", "transport-io"] }
rusqlite = { version = "*", features = ["bundled"] }
serde = { version = "1", features = ["derive"] }
serde_json = "1"
syn = { version = "2", features = ["full"] }
tokio = { version = "1", features = ["full"] }
toml = "*"
walkdir = "2"
