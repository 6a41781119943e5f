[package]
name = "uhpm"
version = "0.1.0"
edition = "2021"
publish = false

[dependencies]
dirs = "*"
flate2 = "*"
tar = "*"
sys-locale = "*"
clap = { version = "*", features = ["derive"] }
clap_complete = "*"
tokio = { version = "*", features = ["rt-multi-thread", "macros", "fs"] }
sqlx = { version = "*", default-features = false, features = ["runtime-tokio", "sqlite", "macros"] }
reqwest = { version = "*", default-features = false, features = ["rustls-tls"] }
futures = "*"
tracing = "*"
tracing-subscriber = "*"
