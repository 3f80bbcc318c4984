[package]
name = "project_graph"
version = "0.1.0"
edition = "2021"
publish = false

[dependencies]
petgraph = "0.8"
globset = "0.4"
glob = "0.3"
ignore = "0.4"
clap = { version = "4", features = ["derive"] }
color-print = "0.3"
eyre = "0.6"
serde = { version = "1", features = ["derive"] }
serde_json = "1"
serde_yaml = "0.9"
toml = "0.9"
