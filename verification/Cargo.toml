[package]
name = "backend"
version = "0.1.0"
edition = "2021"
publish = false

[dependencies]
tree-sitter = "*"
tree-sitter-typescript = "*"
tree-sitter-c-sharp = "*"
anyhow = "*"
axum = "*"
git2 = "*"
rayon = "*"
serde = { version = "*", features = ["derive"] }
serde_json = "*"
tempfile = "*"
tokio = { version = "*", features = ["full"] }
tower-http = { version = "*", features = ["cors"] }
walkdir = "*"
