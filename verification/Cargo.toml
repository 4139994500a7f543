[package]
name = "access_hub"
version = "0.1.0"
edition = "2021"
publish = false

[dependencies]
anyhow = "1"
chrono = "0.4"
clap = { version = "3", features = ["derive", "env"] }
dotenv = "0.15"
futures = "0.3"
reqwest = { version = "0.11", default-features = false, features = ["json", "rustls-tls"] }
serde = { version = "1", features = ["derive"] }
serde_json = "1"
sqlx = { version = "0.6", default-features = false, features = ["runtime-tokio-rustls", "sqlite", "chrono"] }
tokio = { version = "1", features = ["macros", "rt-multi-thread"] }
