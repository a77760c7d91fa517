[package]
name = "schedule_optimization"
version = "0.1.0"
edition = "2021"
publish = false

[dependencies]
async-stream = "0.3"
axum = "0.8"
csv = "1"
futures = "0.3"
indicatif = "0.17"
log = "0.4"
rand = "0.9"
rayon = "1"
rust_xlsxwriter = "*"
serde = { version = "1", features = ["derive"] }
serde_json = "1"
tokio = { version = "1", features = ["rt-multi-thread", "sync", "macros", "time"] }
