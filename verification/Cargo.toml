[package]
name = "mirror_proxy"
version = "0.1.0"
edition = "2021"
publish = false

[dependencies]
url = "*"
axum = "*"
reqwest = { version = "*", default-features = false, features = ["stream"] }
tokio = { version = "*", features = ["macros", "rt-multi-thread", "net"] }
tower-http = { version = "*", features = ["cors"] }
tracing = "*"
tracing-subscriber = { version = "*", features = ["env-filter", "fmt"] }
