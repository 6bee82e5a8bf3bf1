[package]
name = "json_ld_rs"
version = "0.1.0"
edition = "2021"
publish = false

[dependencies]
url = "2"
elsa = "1"
once_cell = "1"
mime = "0.3"
http-link = "*"
lazy_static = "1"
serde_json = "1"
reqwest = { version = "*", default-features = false, features = ["blocking"] }
