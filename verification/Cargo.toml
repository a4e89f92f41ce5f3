[package]
name = "lintoko"
version = "0.1.0"
edition = "2021"
publish = false

[dependencies]
tree-sitter = "*"
miette = { version = "*", features = ["fancy"] }
anyhow = "*"
clap = { version = "*", features = ["derive"] }
glob = "*"
serde = { version = "*", features = ["derive"] }
toml = "*"
tracing = "*"
tracing-subscriber = { version = "*", features = ["env-filter"] }

[dev-dependencies]
tree-sitter-json = "*"
