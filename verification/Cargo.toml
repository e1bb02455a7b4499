[package]
name = "funscript_control"
version = "0.1.0"
edition = "2021"
publish = false

[dependencies]
actix-web = "4"
actix-files = "0.6"
serde = { version = "1", features = ["derive"] }
serde_json = "1"
tokio = { version = "1", features = ["rt-multi-thread", "macros", "sync", "time", "fs"] }
futures = "0.3"
buttplug = { version = "7", default-features = false, features = ["client", "websockets", "serialize-json", "tokio-runtime"] }
atomic_float = "1"
once_cell = "1"
log = "0.4"
