[package]
name = "sled"
version = "0.1.0"
edition = "2021"
publish = false

[dependencies]
bincode = "1"
cache-advisor = "*"
concurrent-map = "*"
crc32fast = "1"
inline-array = "*"
log = "0.4"
parking_lot = { version = "0.12", features = ["arc_lock"] }
serde = { version = "1", features = ["derive"] }
stack-map = "*"
zstd = "*"
