[package]
name = "atproxy"
version = "0.1.0"
edition = "2021"
publish = false

[dependencies]
clap = { version = "4", features = ["derive"] }
libc = "0.2"
nix = { version = "0.29", features = ["net", "user"] }
tokio = { version = "1", features = ["io-util", "macros", "net", "rt", "signal"] }
tracing = "0.1"
tracing-subscriber = { version = "0.3", features = ["env-filter", "fmt"] }
