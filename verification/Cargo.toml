[package]
name = "mdict_cli_rs"
version = "0.1.0"
edition = "2021"
publish = false

[dependencies]
rs-fsrs = { version = "=1.2.1", features = ["serde"] }
flate2 = "=1.1.10"
anyhow = "=1.0.104"
chrono = "=0.4.45"
serde = { version = "=1.0.229", features = ["derive"] }
serde_json = "=1.0.151"
axum = "=0.8.9"
tokio = { version = "=1.53.2", features = ["rt-multi-thread", "macros", "net"] }
tower-http = { version = "=0.7.1", features = ["fs", "trace"] }
tracing = "=0.1.44"
sqlx = { version = "=0.9.0", default-features = false, features = ["sqlite", "runtime-tokio"] }
dirs = "=7.0.0"
env_logger = "=0.11.11"
log = "=0.4.34"
mdict = "=0.1.8"
scraper = "=0.27.0"
ego-tree = "=0.11.0"
rayon = "=1.12.0"
tempfile = "=3.27.0"
walkdir = "=2.5.0"
