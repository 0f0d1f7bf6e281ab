[package]
name = "mule-engine"
version = "0.1.0"
edition = "2021"
publish = false

[dependencies]
libc = "0.2"
md4 = "0.10"
rand = "0.8"
sha1 = "0.10"
socket2 = "0.5"
tokio = { version = "1", features = ["net", "rt", "time", "io-util", "sync", "macros"] }
