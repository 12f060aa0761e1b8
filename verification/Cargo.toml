[package]
name = "ahl_mirror"
version = "0.1.0"
edition = "2021"
publish = false

[dependencies]
ahl-core = "=0.5.0"
atl-core = { version = "=0.23.2", default-features = false }
axum = "=0.8.9"
base64 = "=0.22.1"
clap = { version = "=4.6.7", features = ["derive"] }
hex = "=0.4.3"
rusqlite = { version = "=0.41.1", features = ["bundled"] }
serde = { version = "=1.0.229", features = ["derive"] }
serde_json = "=1.0.154"
sha2 = "=0.10.9"
ed25519-dalek = "=2.2.0"
thiserror = "=2.0.21"
time = { version = "=0.3.55", features = ["formatting", "parsing"] }
tokio = { version = "=1.54.1", features = ["macros", "net", "rt-multi-thread", "signal"] }
tracing = "=0.1.44"
tracing-subscriber = "=0.3.23"
