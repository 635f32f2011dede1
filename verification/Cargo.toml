[package]
name = "vs1053"
version = "0.1.0"
edition = "2021"
publish = false

[dependencies]
anyhow = "*"
chrono = "*"
embedded-hal = "*"
embedded-svc = "*"
esp-idf-hal = "*"
esp-idf-svc = "*"
log = "*"
postcard = "*"
serde = { version = "*", features = ["derive"] }
serde_json = "*"
tea5767 = "*"
toml-cfg = "*"
