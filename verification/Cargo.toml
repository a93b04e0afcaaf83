[package]
name = "potboiler"
version = "0.1.0"
edition = "2021"
publish = false

[dependencies]
hybrid-clocks = "*"
uuid = { version = "1", features = ["v4"] }
serde = { version = "1", features = ["derive"] }
serde_json = "1"
iron = "0.6"
router = "0.6"
logger = "0.4"
persistent = "0.4"
hyper = "0.10"
postgres = { version = "0.19", features = ["with-uuid-1", "with-serde_json-1"] }
r2d2 = "0.8"
r2d2_postgres = "0.18"
log = "0.4"
log4rs = "1"
lazy_static = "1"
