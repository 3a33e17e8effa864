[package]
name = "chess-driller"
version = "0.1.0"
edition = "2021"
publish = false

[dependencies]
anyhow = "1"
chess = "3.2"
chrono = "0.4"
dirs = "5"
fastrand = "2"
petgraph = "0.6"
pgn-reader = "0.26"
reqwest = { version = "0.11", default-features = false, features = ["blocking", "json", "rustls-tls"] }
sdl2 = { version = "0.35", features = ["image"] }
serde = { version = "1", features = ["derive"] }
serde_json = "1"
shakmaty = "0.27"
tracing = "0.1"
tracing-subscriber = { version = "0.3", features = ["env-filter"] }
walkdir = "2"
