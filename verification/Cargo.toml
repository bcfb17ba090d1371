[package]
name = "spotbook"
version = "0.1.0"
edition = "2021"
publish = false

[dependencies]
bybit_rs = "=0.1.7"
serde_json = "1"
tokio = { version = "1", features = ["macros", "rt-multi-thread", "time"] }
