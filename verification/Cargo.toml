[package]
name = "ad_skipper"
version = "0.1.0"
edition = "2021"
publish = false

[dependencies]
jni = "0.21"
log = "0.4"
regex = "1"
serde = { version = "1", features = ["derive"] }
