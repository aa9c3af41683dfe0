[package]
name = "decl-shadow-test"
version = "0.1.0"
edition = "2021"
publish = false

[dependencies]
axum = "=0.8.9"
base64 = "=0.22.1"
futures-util = "=0.3.34"
html5ever = "=0.39.0"
markup5ever_rcdom = "=0.39.0+unofficial"
serde = { version = "=1.0.229", features = ["derive"] }
serde_json = "=1.0.154"
sha2 = "=0.10.9"
tendril = "=0.5.1"
tokio = { version = "=1.54.1", features = ["full"] }
tower-http = { version = "=0.7.1", features = ["fs"] }
url = "=2.5.8"
