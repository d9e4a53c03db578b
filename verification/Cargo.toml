[package]
name = "ingress_guard"
version = "0.1.0"
edition = "2021"
publish = false

[dependencies]
actix-cors = "=0.6.5"
actix-identity = "=0.5.2"
actix-session = "=0.7.2"
actix-web = "=4.18.1"
argon2 = "=0.5.3"
async-trait = "=0.1.92"
dotenv = "=0.15.0"
env_logger = "=0.10.2"
log = "=0.4.34"
reqwest = { version = "=0.11.27", default-features = false }
rustls = "=0.21.12"
rustls-pemfile = "=1.0.4"
serde = { version = "=1.0.229", features = ["derive"] }
thiserror = "=1.0.69"
