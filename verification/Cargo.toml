[package]
name = "halt"
version = "0.1.0"
edition = "2021"
publish = false

[dependencies]
chrono = { version = "0.4", features = ["serde"] }
dashmap = "6"
priority-queue = "2"
serde = { version = "1", features = ["derive"] }
serde_json = "1"
tokio = { version = "1", features = ["sync", "rt-multi-thread", "macros"] }
uuid = { version = "1", features = ["v4", "serde"] }
actix-web = "4"
actix-web-actors = "4"
actix = "0.13"
clap = { version = "4", features = ["derive"] }
rusqlite = { version = "*", features = ["bundled"] }
jni = "0.21"
wasm-bindgen = "0.2"
async-trait = "0.1"
