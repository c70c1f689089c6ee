[package]
name = "acousticdi"
version = "0.1.0"
edition = "2021"
publish = false

[dependencies]
anyhow = "=1.0.104"
cpal = "=0.15.3"
dasp = { version = "=0.11.0", features = ["signal"] }
hound = "=3.5.1"
ruststft = "=0.3.1"
tracing = "=0.1.44"
tracing-subscriber = "=0.3.23"
