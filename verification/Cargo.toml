[package]
name = "clob_engine"
version = "0.1.0"
edition = "2021"
publish = false

[dependencies]
actix = "*"
actix-web = "*"
actix-web-actors = "*"
bytes = "*"
chrono = "*"
futures = "*"
lazy_static = "*"
parking_lot = "*"
prometheus = "*"
ringbuf = "*"
rmp-serde = "*"
scylla = "*"
serde = { version = "*", features = ["derive"] }
serde_json = "*"
tokio = { version = "*", features = ["full"] }
uuid = { version = "*", features = ["v4"] }
