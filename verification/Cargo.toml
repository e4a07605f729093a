[package]
name = "sync_color_schemes"
version = "0.1.0"
edition = "2021"
publish = false

[dependencies]
anyhow = "*"
env_logger = "*"
libflate = "*"
log = "*"
reqwest = { version = "*", default-features = false }
serde = { version = "*", features = ["derive"] }
serde_json = "*"
tar = "*"
tokio = { version = "*", features = ["macros", "rt-multi-thread"] }
toml = "*"
