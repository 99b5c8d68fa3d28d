[package]
name = "asus_router"
version = "0.1.0"
edition = "2021"
publish = false

[dependencies]
anyhow = "=1.0.104"
clap = "=4.6.7"
log = "=0.4.34"
reqwest = { version = "=0.13.5", features = ["blocking"], default-features = false }
serde = { version = "=1.0.229", features = ["derive"] }
serde_json = "=1.0.151"
trippy = { version = "=0.13.0", features = ["dns"], default-features = false }
