[package]
name = "bot_rs"
version = "0.1.0"
edition = "2021"
publish = false

[dependencies]
anyhow = "1"
dotenv = "*"
log = "*"
pretty_env_logger = "*"
tokio = { version = "1", features = ["macros", "rt-multi-thread", "time"] }
twilight-http = "*"
