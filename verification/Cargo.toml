[package]
name = "anonym-mcp"
version = "0.1.0"
edition = "2021"
publish = false

[dependencies]
regex = "=1.13.1"
serde = { version = "=1.0.229", features = ["derive"] }
serde_json = "=1.0.154"
anyhow = "=1.0.104"
dirs = "=7.0.0"
zip = "=9.2.2"
quick-xml = "=0.37.5"
pdf-extract = "=0.12.1"
objc2 = "=0.6.5"
objc2-foundation = "=0.3.2"
objc2-vision = "=0.3.2"
objc2-core-graphics = "=0.3.2"
