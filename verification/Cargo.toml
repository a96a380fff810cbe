[package]
name = "clipboard_relay"
version = "0.1.0"
edition = "2021"
publish = false

[dependencies]
uuid = { version = "=1.27.0", features = ["v4"] }
tokio = { version = "=1.53.2", features = ["rt", "macros", "net", "time", "signal", "io-util", "sync"] }
tokio-websockets = { version = "=0.13.3", features = ["server", "client", "sha1_smol", "rand"] }
futures-util = { version = "=0.3.34", features = ["sink"] }
serde = { version = "=1.0.229", features = ["derive"] }
toml = "=1.1.7"
log = "=0.4.34"
pretty_env_logger = "=0.5.0"
anyhow = "=1.0.104"
