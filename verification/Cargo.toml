[package]
name = "ma"
version = "0.1.0"
edition = "2021"
publish = false

[dependencies]
anyhow = "=1.0.104"
async-imap = { version = "=0.12.0", default-features = false, features = ["runtime-tokio"] }
clap = { version = "=4.6.7", features = ["derive"] }
console = "=0.16.6"
flate2 = "=1.1.10"
futures = "=0.3.34"
human-panic = "=2.0.8"
indicatif = "=0.18.6"
mail-parser = "0.11"
mailparse = "=0.18.0"
rustls = { version = "=0.23.46", default-features = false, features = ["ring", "std", "tls12", "logging"] }
rustls-pki-types = "=1.15.1"
serde = { version = "=1.0.229", features = ["derive"] }
sha2 = "=0.10.9"
sqlx = { version = "=0.9.0", default-features = false, features = ["sqlite", "runtime-tokio", "derive"] }
thiserror = "=2.0.21"
tokio = { version = "=1.54.1", features = ["rt-multi-thread", "macros", "fs", "net", "process"] }
tokio-rustls = { version = "=0.26.6", default-features = false, features = ["ring", "tls12", "logging"] }
toml = "=1.1.8"
tracing = "=0.1.44"
tracing-appender = "=0.2.5"
tracing-subscriber = { version = "=0.3.23", features = ["env-filter"] }
webpki-roots = "=1.0.11"
