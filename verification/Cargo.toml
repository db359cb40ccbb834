[package]
name = "osm_router"
version = "0.1.0"
edition = "2021"
publish = false

[dependencies]
rand = "0.8"
osmpbfreader = "*"
serde = { version = "1", features = ["derive"] }
serde_json = "1"
log = "0.4"
chrono = "0.4"
tokio = { version = "1", features = ["full"] }
actix-web = "4"
actix-cors = "*"
reqwest = { version = "0.11", default-features = false, features = ["rustls-tls"] }
