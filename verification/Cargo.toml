[package]
name = "clawmation"
version = "0.1.0"
edition = "2021"
publish = false

[dependencies]
base64 = "=0.22.1"
chrono = { version = "0.4", default-features = false, features = ["clock"] }
png = "=0.17.16"
