[package]
name = "limmat"
version = "0.2.5"
edition = "2021"
publish = false

[dependencies]
ansi-control-codes = "1"
anyhow = "1"
async-condvar-fair = "1"
async-stream = "0.3"
axum = { version = "0.7", features = ["ws"] }
clap = { version = "4", features = ["derive"] }
colored = "2"
crossterm = { version = "0.28", features = ["event-stream"] }
directories = "5"
flexi_logger = "0.29"
futures = "0.3"
hex = "0.4"
indoc = "2"
log = "0.4"
nix = { version = "0.29", features = ["signal", "process", "feature", "fs"] }
notify = "6"
parking_lot = "0.12"
regex = "1"
schemars = "0.8"
serde = { version = "1", features = ["derive"] }
serde_json = "1"
sha3 = "0.10"
tempfile = "3"
tokio = { version = "1", features = ["full"] }
tokio-util = "0.7"
toml = "0.8"
tower-http = { version = "0.6", features = ["fs"] }
unicode-segmentation = "1"

[dev-dependencies]
strip-ansi-escapes = "0.2"
