[package]
name = "starknet_lb"
version = "0.1.0"
edition = "2021"
publish = false

[dependencies]
anyhow = "=1.0.104"
arc-swap = "=1.9.3"
axum = "=0.7.9"
clap = { version = "=4.6.7", features = ["derive"] }
futures-util = "=0.3.34"
rand = "=0.8.8"
reqwest = "=0.11.27"
starknet = "=0.11.0"
# Not used directly: holds `starknet`'s dependency at 0.1.7, as later 0.1
# releases depend on `size-of`, which no longer compiles with current Rust.
starknet-types-core = "=0.1.7"
tokio = { version = "=1.54.1", features = ["rt-multi-thread", "macros", "net", "signal", "time", "sync"] }
tokio-util = "=0.7.20"
url = "=2.5.8"
