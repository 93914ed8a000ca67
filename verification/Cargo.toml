[package]
name = "speaker_capture"
version = "0.1.0"
edition = "2021"
publish = false

[dependencies]
ringbuf = "0.4"
base64 = "0.22"
anyhow = "1"
tokio = { version = "1", default-features = false, features = ["sync", "time"] }
futures-util = { version = "0.3", default-features = false }
tempfile = "3"
cidre = "*"
