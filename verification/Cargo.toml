[package]
name = "nyaadesu"
version = "0.1.0"
edition = "2021"
publish = false

[dependencies]
html5ever = "=0.39.0"
markup5ever_rcdom = "=0.39.0"
reqwest = { version = "=0.12.28", default-features = false, features = ["blocking", "rustls-tls"] }
