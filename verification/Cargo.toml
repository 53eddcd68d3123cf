[package]
name = "server"
version = "0.1.0"
edition = "2021"
publish = false

[dependencies]
actix-web = { version = "4", default-features = false, features = ["compress-gzip"] }
log = "0.4"
serde_json = "1"
