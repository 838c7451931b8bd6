[package]
name = "bitmask_core"
version = "0.1.0"
edition = "2021"
publish = false

[dependencies]
anyhow = "1"
axum = "0.6"
axum-macros = "0.3"
bdk = { version = "0.27", default-features = false, features = ["async-interface", "use-esplora-async"] }
bitcoin = "0.29"
gloo-console = "0.2"
gloo-net = "0.2"
log = "0.4"
once_cell = "1"
pretty_env_logger = "0.4"
serde = { version = "1", features = ["derive"] }
serde_json = "1"
tokio = { version = "1", features = ["full"] }
tower-http = { version = "0.4", features = ["cors"] }
