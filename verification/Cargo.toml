[package]
name = "poodle"
version = "0.1.0"
edition = "2021"
publish = false

[dependencies]
kuchiki = "=0.8.1"
html-diff = "=0.0.5"
rand = "=0.7.3"
reqwest = { version = "=0.11.27", default-features = false, features = ["rustls-tls", "cookies"] }
tokio = { version = "=1.54.1", features = ["macros", "rt-multi-thread", "sync"] }
serenity = { version = "=0.10.10", default-features = false, features = ["builder", "cache", "client", "gateway", "http", "model", "utils", "rustls_backend"] }
config = "=0.10.1"
