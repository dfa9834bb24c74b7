[package]
name = "watchsync"
version = "0.1.0"
edition = "2021"
publish = false

[dependencies]
serde = { version = "1", features = ["derive"] }
serde_json = "1"
hyper = { version = "0.14", features = ["server", "client", "http1", "tcp"] }
tokio = { version = "1", features = ["rt-multi-thread", "net", "time", "macros"] }
structopt = "0.3"
rand = "0.8"
hyper-staticfile = "0.9"
