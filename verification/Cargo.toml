[package]
name = "shmipc"
version = "0.1.0"
edition = "2021"
publish = false

[dependencies]
anyhow = "1"
arc-swap = "1"
bytes = "1.9"
crossbeam-queue = "0.3"
fs2 = "0.4"
futures = "0.3"
libc = "0.2"
memmap2 = "0.9"
nix = { version = "0.30", features = ["fs", "mman", "socket", "uio"] }
serde = { version = "1", features = ["derive"] }
serde_json = "1"
thiserror = "2"
tokio = { version = "1", features = ["rt-multi-thread", "net", "sync", "time", "macros", "io-util"] }
tracing = "0.1"
