[package]
name = "simple_server"
version = "0.1.0"
edition = "2021"
publish = false

[dependencies]
base64 = "*"
camino = "*"
chrono = "*"
fastrand = "*"
mio = { version = "*", features = ["net", "os-poll"] }
rustls = { version = "*", default-features = false, features = ["ring", "std", "logging", "tls12"] }
sha1 = "*"
