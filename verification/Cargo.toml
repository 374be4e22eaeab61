[package]
name = "bluenine"
version = "0.1.0"
edition = "2021"
publish = false

[dependencies]
chrono = "0.4"
colored = "2"
clap = "2.34"
rusoto_core = { version = "0.48", default-features = false, features = ["rustls"] }
rusoto_sts = { version = "0.48", default-features = false, features = ["rustls"] }
tokio = { version = "1", features = ["rt"] }
