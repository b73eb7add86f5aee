[package]
name = "sparkles_gui"
version = "0.1.0"
edition = "2021"
publish = false

[dependencies]
anyhow = "*"
axum = { version = "*", features = ["ws"] }
clap = { version = "*", features = ["derive"] }
ctrlc = "*"
log = "*"
open = "*"
parking_lot = "*"
serde = { version = "*", features = ["derive"] }
serde_json = "*"
simple_logger = "*"
sparkles-parser = "*"
tokio = { version = "*", features = ["rt-multi-thread", "macros", "sync", "net", "time"] }
tower-http = { version = "*", features = ["fs"] }
