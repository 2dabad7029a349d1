[package]
name = "kata_device_plugin"
version = "0.1.0"
edition = "2021"
publish = false

[dependencies]
pci-ids = "=0.2.6"
pcilibs-rs = "=0.1.0"
anyhow = "=1.0.104"
futures = "=0.3.34"
tokio = { version = "=1.54.1", features = ["rt-multi-thread", "macros", "signal", "time", "sync"] }
tokio-util = "=0.7.20"
tracing = "=0.1.44"
tracing-subscriber = { version = "=0.3.23", features = ["env-filter", "fmt"] }
