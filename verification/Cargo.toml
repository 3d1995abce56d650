[package]
name = "tellus"
version = "0.1.0"
edition = "2021"
publish = false

[dependencies]
derive_more = { version = "2", features = ["debug", "display"] }
erased-serde = "0.4"
flume = "0.11"
humantime-serde = "1"
postcard = { version = "1", features = ["use-std"] }
quinn = "0.11"
rcgen = "0.13"
rustls = { version = "0.23", default-features = false, features = ["ring", "std"] }
serde = { version = "1", features = ["derive"] }
thiserror = "2"
tokio = { version = "1", features = ["rt-multi-thread", "macros", "sync", "time"] }
tracing = "0.1"
trait-variant = "0.1"
uuid = { version = "1", features = ["v4", "v7", "serde"] }
x509-parser = "0.17"

[dev-dependencies]
serde_json = "1"
