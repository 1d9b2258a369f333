[package]
name = "cargo_trend"
version = "0.1.0"
edition = "2021"
publish = false

[dependencies]
semver = "1"
sha2 = "0.10"
anyhow = "1"
chrono = "0.4"
serde = { version = "1", features = ["derive"] }
serde_json = "1"
structopt = "0.3"
tempfile = "3"
directories = "5"
cargo_metadata = "0.18"
git2 = { version = "0.19", default-features = false }
crates-index = { version = "2", default-features = false }
reqwest = { version = "0.12", default-features = false, features = ["blocking", "rustls-tls"] }
plotters = "0.3"
