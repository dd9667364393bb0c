[package]
name = "service_utils"
version = "0.1.0"
edition = "2021"
publish = false

[dependencies]
regex = "1"
actix-web = { version = "4", default-features = false, features = ["macros"] }
reqwest = { version = "0.11", default-features = false, features = ["rustls-tls"] }
hyper = { version = "0.14", features = ["full"] }
http = "0.2"
tokio = { version = "1", features = ["full"] }
futures = "0.3"
thiserror = "1"
lazy_static = "1"
