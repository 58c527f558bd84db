[package]
name = "bdk_coin_select"
version = "0.1.0"
edition = "2021"
publish = false

[dev-dependencies]
proptest = { version = "=1.4.0", default-features = false, features = ["std"] }
rand = "=0.8.5"
