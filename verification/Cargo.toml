[package]
name = "nixconsul"
version = "0.1.0"
edition = "2021"
publish = false

[dependencies]
anyhow = "*"
clap = { version = "*", features = ["derive"] }
figment = { version = "*", features = ["toml", "env"] }
gethostname = "*"
notify = "*"
reqwest = { version = "*", default-features = false }
rs-consul = "*"
serde = { version = "*", features = ["derive"] }
serde_json = "*"
serde_yaml = "*"
tokio = { version = "*", features = ["macros", "net", "rt-multi-thread", "time"] }
tracing = "*"
tracing-subscriber = "*"
