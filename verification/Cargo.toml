[package]
name = "rinha"
version = "0.1.0"
edition = "2021"
publish = false

[dependencies]
axum = "0.7"
bitcode = { version = "0.6", features = ["serde"] }
futures = "0.3"
hyper = { version = "1.3", features = ["full"] }
hyper-util = { version = "0.1", features = ["tokio", "server-auto", "http1", "http2", "client-legacy"] }
libc = "0.2"
serde = { version = "1", features = ["derive"] }
tokio = { version = "1.37", features = ["full"] }
