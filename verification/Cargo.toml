[package]
name = "dorea"
version = "0.3.0"
edition = "2021"
publish = false

[dependencies]
md5 = "*"
uuid = { version = "*", features = ["v4"] }
tokio = { version = "*", features = ["full"] }
chrono = "*"
dirs = "*"
log = "*"
log4rs = "*"
