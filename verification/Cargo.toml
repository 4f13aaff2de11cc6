[package]
name = "operator"
version = "0.1.0"
edition = "2021"
publish = false

[dependencies]
anyhow = "1"
env_logger = "*"
futures-util = "0.3"
json-patch = "*"
k8s-openapi = { version = "*", features = ["latest"] }
kube = { version = "*", features = ["runtime", "derive", "client"] }
log = "0.4"
schemars = "*"
serde = { version = "1", features = ["derive"] }
serde_json = "1"
serde_yaml = "*"
thiserror = "1"
tokio = { version = "1", features = ["macros", "rt-multi-thread"] }
