[package]
name = "dnsmasq_dns"
version = "0.1.0"
edition = "2021"
publish = false

[dependencies]
bytes = "1"
data-encoding = "2"
filetime = "0.2"
hashbrown = "0.14"
ipnetwork = { version = "0.20", default-features = false }
rand = "0.8"
ring = "0.17"
serde = { version = "1", features = ["derive"] }
sha1 = "0.10"
sha2 = "0.10"
tokio = { version = "1", features = ["fs", "io-util", "macros", "net", "rt-multi-thread", "sync", "time"] }
tracing = "0.1"
