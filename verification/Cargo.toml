[package]
name = "tpb"
version = "0.1.0"
edition = "2021"
publish = false

[dependencies]
quick-xml = "0.37"
url = "2"
anyhow = "1"
clap = { version = "4", features = ["derive", "env"] }
futures-util = "0.3"
reqwest = { version = "0.12", default-features = false, features = ["rustls-tls"] }
serde = { version = "1", features = ["derive"] }
serde_json = "1"
tokio = { version = "1", features = ["macros", "rt-multi-thread", "process", "time"] }
