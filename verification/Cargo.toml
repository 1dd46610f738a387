[package]
name = "filedepot"
version = "0.1.0"
edition = "2021"
publish = false

[dependencies]
mime_guess = "*"
axum = "*"
tokio = { version = "*", features = ["full"] }
tokio-util = { version = "*", features = ["io"] }
tower-http = { version = "*", features = ["fs"] }
futures = "*"
serde = { version = "*", features = ["derive"] }
colored = "*"
