[package]
name = "rustory"
version = "0.1.0"
edition = "2021"
publish = false

[dependencies]
anyhow = "*"
clap = { version = "*", default-features = false, features = ["derive", "std", "help", "usage", "error-context"] }
ctrlc = "*"
futures = "*"
libp2p = { version = "*", default-features = false, features = ["tokio", "tcp", "noise", "yamux", "pnet", "relay", "dcutr", "identify", "ping", "macros"] }
libp2p-request-response = { version = "*", features = ["json"] }
rand = "*"
regex = "*"
rusqlite = { version = "*", features = ["bundled"] }
serde = { version = "*", features = ["derive"] }
serde_json = "*"
time = "*"
tiny_http = "*"
tokio = { version = "1", features = ["rt", "time", "macros"] }
toml = "*"
ureq = { version = "2", default-features = false }
uuid = { version = "1", features = ["v4", "v5"] }
