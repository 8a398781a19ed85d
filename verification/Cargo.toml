[package]
name = "piano_midi"
version = "0.1.0"
edition = "2021"
publish = false

[dependencies]
alsa = "*"
chrono = "0.4"
clap = { version = "4", features = ["derive", "env"] }
libc = "0.2"
midly = "0.5"
opentelemetry = { version = "*", features = ["metrics"] }
opentelemetry-otlp = { version = "*", default-features = false, features = ["http-proto", "metrics", "reqwest-blocking-client"] }
opentelemetry_sdk = { version = "*", features = ["metrics"] }
serde = { version = "1", features = ["derive"] }
serde_json = "1"
signal-hook = "0.3"
toml = "*"
