[package]
name = "stock_market"
version = "0.1.0"
edition = "2021"
publish = false

[dependencies]
chrono = { version = "0.4", default-features = false, features = ["now"] }
serde_json = "1"
termcolor = "1"
tokio = { version = "1", features = ["full"] }
