[package]
name = "chat_session"
version = "0.1.0"
edition = "2021"
publish = false

[dependencies]
anyhow = "1"
rand = "=0.8.8"
serde = "1"
serde_json = "1"

[dev-dependencies]
data-encoding = "2"
iroh-base = "=0.35.0"
iroh-gossip = { version = "=0.35.0", default-features = false }
postcard = "1"
