[package]
name = "netmux-core"
version = "0.1.0"
edition = "2021"
publish = false

[dependencies]
libc = "0.2"
if-addrs = "0.15"
serde = { version = "1", features = ["derive"] }
thiserror = "2"
tracing = "0.1"
tracing-appender = "0.2"
tracing-subscriber = { version = "0.3", features = ["env-filter"] }
gpui-unofficial = { version = "*", default-features = false }
