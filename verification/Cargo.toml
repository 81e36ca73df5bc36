[package]
name = "kv_replay"
version = "0.1.0"
edition = "2021"
publish = false

[dependencies]
scylla = "*"
tokio = { version = "*", features = ["macros", "rt-multi-thread"] }
