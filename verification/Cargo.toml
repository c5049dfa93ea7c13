[package]
name = "ndnblk"
version = "0.1.0"
edition = "2021"
publish = false

[dependencies]
chrono = "0.4"
clap = { version = "4", features = ["derive"] }
futures = "0.3"
log = "0.4"
log4rs = "1"
rand_agents = "*"
reqwest = { version = "0.12", default-features = false, features = ["json", "rustls-tls", "socks"] }
serde_json = "1"
tokio = { version = "1", features = ["macros", "process", "rt-multi-thread", "time"] }
