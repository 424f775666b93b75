[package]
name = "bundle_scheduler"
version = "0.1.0"
edition = "2021"

[dependencies]
clap = { version = "4.5", features = ["derive", "env"] }
clap_complete = "4.5"
crossbeam-channel = "0.5"
dotenvy = "0.15"
hostname = "0.4"
itertools = "0.12"
jwt = { version = "0.16", features = ["openssl"] }
min-max-heap = "1.3"
openssl = "0.10"
solana-clock = "=2.2.3"
solana-pubkey = "=2.2.1"
solana-sdk = "=2.2.2"
tokio = { version = "1", features = ["rt-multi-thread", "macros", "signal", "sync"] }
tokio-util = "0.7"
tonic = "0.12"
tracing = "0.1"
