[package]
name = "aster"
version = "0.1.0"
edition = "2021"
publish = false

[dependencies]
anyhow = "1"
base64 = "0.22"
bytes = "1"
crossterm = { version = "0.28", features = ["event-stream"] }
env_filter = { version = "0.1", default-features = false }
futures = "0.3"
futures-util = "0.3"
iroh-base = { version = "0.34", default-features = false, features = ["key"] }
log = "0.4"
n0-future = "0.1"
postcard = { version = "1", features = ["use-std"] }
rand = "0.8"
ratatui = "0.29"
rodio = { version = "0.20", default-features = false, features = ["mp3"] }
serde = { version = "1", features = ["derive"] }
serde_json = "1"
stream-download = { version = "0.22", default-features = false, features = ["temp-storage"] }
tokio = { version = "1", features = ["fs", "io-util", "macros", "rt-multi-thread", "sync", "time"] }
tokio-util = { version = "0.7", features = ["codec", "io"] }
tui-tree-widget = "0.23"
tui-widgets = { version = "0.4", default-features = false, features = ["prompts"] }

[dev-dependencies]
arbtest = "0.3"
