[package]
name = "ipscan"
version = "0.1.0"
edition = "2021"
publish = false

[dependencies]
rand = "*"
pnet_packet = "*"
pnet_transport = "*"
pnet_datalink = "*"
rusqlite = { version = "*", features = ["bundled"] }
tokio = { version = "*", features = ["rt-multi-thread", "net", "time", "sync"] }
clap = { version = "*", features = ["derive", "env"] }
serde = { version = "*", features = ["derive"] }
toml = "*"
