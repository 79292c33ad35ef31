[package]
name = "cppdoc"
version = "0.1.0"
edition = "2021"
publish = false

[dependencies]
pulldown-cmark = "*"
syntect = "*"
tempfile = "*"
serde = { version = "*", features = ["derive"] }
serde_json = "*"
toml = "*"
