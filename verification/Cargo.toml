[package]
name = "diy_redis"
version = "0.1.0"
edition = "2021"
publish = false

[dependencies]
memchr = "2"
bytes = "1"
tokio = { version = "1", features = ["net", "rt-multi-thread", "macros", "io-util"] }
