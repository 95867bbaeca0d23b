[package]
name = "deployfix"
version = "0.1.0"
edition = "2021"
publish = false

[dependencies]
petgraph = "0.6"
graph-cycles = "0.1"
serde = { version = "1", features = ["derive"] }
serde_json = "1"
serde_yaml = "0.9"
k8s-openapi = { version = "*", features = ["latest"] }
anyhow = "1"
thiserror = "1"
clap = { version = "4", features = ["derive"] }
annotate-snippets = "0.10"

[dev-dependencies]
either = "1"
rand = { version = "0.8", features = ["small_rng"] }
