[package]
name = "thx"
version = "0.1.0"
edition = "2021"
publish = false

[dependencies]
anyhow = "=1.0.104"
chrono = { version = "=0.4.45", default-features = false, features = ["clock"] }
crossterm = { version = "=0.29.0", features = ["osc52"] }
directories = "=6.0.0"
dotenvy = "=0.15.7"
futures = "=0.3.34"
jsonschema = { version = "=0.60.2", default-features = false }
ratatui = { version = "=0.30.2", features = ["unstable-rendered-line-info"] }
reqwest = { version = "0.13", default-features = false }
rig = { version = "=0.42.0", default-features = false, features = ["agent"] }
rmcp = { version = "=3.1.4", default-features = false, features = ["client", "transport-child-process", "transport-streamable-http-client-reqwest"] }
serde = { version = "=1.0.229", features = ["derive"] }
serde_json = "=1.0.154"
serde_yaml_ng = "=0.10.0"
shellexpand = "=3.1.2"
tokio = { version = "1", features = ["macros", "rt-multi-thread", "process", "time", "io-util"] }
tui-markdown = { version = "=0.3.13", default-features = false }
tui-prompts = "=0.6.8"
unicode-width = "=0.2.3"
url = "=2.5.8"

[dev-dependencies]
tempfile = "3"
