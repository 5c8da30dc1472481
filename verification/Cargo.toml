[package]
name = "netgol"
version = "0.3.0"
edition = "2021"
publish = false

[dependencies]
axum = { version = "0.8", features = ["ws"] }
axum-extra = { version = "0.10", features = ["cookie"] }
bytes = "1"
figment = { version = "0.10", features = ["toml", "env"] }
futures-util = { version = "0.3", features = ["sink"] }
hex = "0.4"
jsonwebtoken = "9"
oauth2 = "4"
openidconnect = "3"
prometheus = { version = "0.13", default-features = false }
reqwest = { version = "0.11", default-features = false, features = ["json", "rustls-tls"] }
serde = { version = "1", features = ["derive"] }
serde_json = "1"
sha2 = "0.10"
time = "0.3"
tokio = { version = "1", features = ["full"] }
toml = "0.8"
tracing = "0.1"
tracing-subscriber = { version = "0.3", features = ["env-filter"] }
wasm-bindgen = "0.2"
