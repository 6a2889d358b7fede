[package]
name = "svc_registry"
version = "0.1.0"
edition = "2021"
publish = false

[dependencies]
nanoid = "*"
etcd-client = "*"
tokio = { version = "*", features = ["full"] }
tonic = "*"
anyhow = "*"

[dev-dependencies]
serde_json = "*"
