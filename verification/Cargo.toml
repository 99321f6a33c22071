[package]
name = "jsonref"
version = "0.1.0"
edition = "2021"
publish = false

[dependencies]
serde_json = "1"
snafu = "0.6"
ureq = { version = "2", features = ["json"] }
url = "2"
