[package]
name = "saying"
version = "0.1.0"
edition = "2021"
publish = false

[dependencies]
tray-icon = { version = "=0.26.1", default-features = false, features = ["ksni"] }
