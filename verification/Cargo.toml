[package]
name = "devctrl"
version = "0.1.0"
edition = "2021"
publish = false

[dependencies]
anyhow = "=1.0.104"
clickhouse = "=0.15.2"
rhai = { version = "=1.26.1", features = ["sync"] }
schemars = "=1.2.2"
serde = { version = "=1.0.229", features = ["derive"] }
serde_json = "=1.0.151"
tokio = { version = "=1.53.2", features = ["full"] }
uuid = "=1.27.0"
