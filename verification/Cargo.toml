[package]
name = "alog"
version = "0.1.0"
edition = "2021"
publish = false

[dependencies]
crc32fast = "=1.5.4"
memchr = "=2.8.3"
rayon = "=1.12.0"
rusqlite = { version = "=0.37.0", features = ["bundled", "hooks"] }
serde = "=1.0.229"
serde_json = { version = "=1.0.154", features = ["preserve_order"] }
tiny_http = "=0.12.0"
