[package]
name = "muviz"
version = "0.1.0"
edition = "2021"
publish = false

[dependencies]
anyhow = "=1.0.104"
audioadapter = "=5.0.0"
audioadapter-buffers = "=5.2.0"
bevy_math = "=0.17.3"
clap = { version = "=4.6.7", features = ["derive"] }
csv = "=1.4.0"
directories = "=6.0.0"
hf = "=0.6.0"
rand = "=0.10.3"
realfft = "=3.5.1"
rubato = "=5.0.1"
serde = { version = "=1.0.229", features = ["derive"] }
serde_json = "=1.0.154"
symphonia = { version = "=0.5.5", features = ["all"] }
symphonia-adapter-libopus = "=0.2.9"
tracing = "=0.1.44"
tracing-subscriber = "=0.3.23"
