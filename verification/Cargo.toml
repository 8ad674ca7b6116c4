[package]
name = "plexus-listen"
version = "0.1.0"
edition = "2021"
publish = false

[dependencies]
anyhow = "=1.0.104"
async-stream = "=0.3.6"
async-trait = "=0.1.92"
audioadapter-buffers = "=2.0.0"
base64 = "=0.22.1"
chrono = "=0.4.45"
clap = { version = "=4.6.7", features = ["derive"] }
cpal = "=0.16.0"
futures = "=0.3.34"
hound = "=3.5.1"
jsonrpsee = { version = "=0.26.1", features = ["server", "macros"] }
plexus-core = "=0.3.13"
plexus-macros = "=0.3.10"
plexus-transport = "0.1"
ringbuf = "=0.4.8"
rubato = "=1.0.1"
rusb = "=0.9.4"
schemars = "=1.2.3"
screencapturekit = "=1.5.4"
serde = { version = "=1.0.229", features = ["derive"] }
serde_json = "=1.0.154"
tokio = { version = "=1.54.1", features = ["full"] }
tracing = "=0.1.44"
tracing-subscriber = { version = "=0.3.23", features = ["env-filter"] }
uuid = { version = "=1.29.0", features = ["v5"] }
