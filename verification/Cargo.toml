[package]
name = "ddns"
version = "0.1.0"
edition = "2021"
publish = false

[dependencies]
anyhow = "*"
async-trait = "*"
clap = "*"
cloudflare = "*"
config = "*"
env_logger = "*"
log = "*"
reqwest = { version = "*", default-features = false }
serde = { version = "*", features = ["derive"] }
thiserror = "*"
tokio = { version = "*", features = ["macros", "rt-multi-thread", "sync"] }
