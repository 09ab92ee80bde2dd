[package]
name = "url_compare"
version = "0.1.0"
edition = "2021"
publish = false

[dependencies]
anyhow = "1"
bat = { version = "*", default-features = false, features = ["regex-fancy", "paging"] }
clap = { version = "4", features = ["derive"] }
dotenv = "*"
indicatif = "*"
reqwest = { version = "=0.12.28", default-features = false }
serde = { version = "1", features = ["derive"] }
serde_json = { version = "=1.0.151", features = ["preserve_order"] }
tempfile = "3"
term_size = "*"
tokio = { version = "1", features = ["rt-multi-thread", "macros"] }
toml = "*"
