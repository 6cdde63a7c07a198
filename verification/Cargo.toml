[package]
name = "gitauthors"
version = "0.1.0"
edition = "2021"
publish = false

[dependencies]
clap = { version = "=4.6.7", features = ["derive"] }
futures = "=0.3.34"
git2 = "=0.21.0"
indicatif = "=0.18.6"
octocrab = "=0.47.1"
tempfile = "=3.27.0"
tokio = { version = "=1.53.2", features = ["macros", "rt-multi-thread", "process", "sync"] }
