[package]
name = "rust_web"
version = "0.1.0"
edition = "2021"
publish = false

[dependencies]
actix-web = { version = "4", default-features = false, features = ["macros"] }
chrono = "0.4"
dotenvy = "0.15"
encoding_rs = "0.8"
env_logger = "0.10"
hyper = { version = "0.14", features = ["server", "http1", "tcp", "runtime"] }
log = "0.4"
reqwest = { version = "0.11", default-features = false, features = ["rustls-tls"] }
sea-orm = { version = "1", default-features = false, features = ["macros", "sqlx-mysql", "runtime-tokio-rustls"] }
serde = { version = "1", features = ["derive"] }
serde_json = "1"
tokio = { version = "1", features = ["macros", "rt-multi-thread"] }
urlencoding = "2"
