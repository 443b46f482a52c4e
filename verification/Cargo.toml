[package]
name = "fim"
version = "0.1.0"
edition = "2021"
publish = false

[dependencies]
sha2 = "0.10"
hex = "0.4"
clap = { version = "4", features = ["derive"] }
dotenvy = "0.15"
chrono = "0.4"
walkdir = "2"
tracing-subscriber = { version = "0.3", features = ["env-filter"] }
mysql = { version = "*", default-features = false, features = ["minimal"] }
