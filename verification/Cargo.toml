[package]
name = "trybuild"
version = "0.1.0"
edition = "2021"
publish = false

[dependencies]
glob = "*"
serde = { version = "*", features = ["derive"] }
serde_json = "*"
termcolor = "*"
toml = "*"
diff = "*"
