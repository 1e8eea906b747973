[package]
name = "trace_core"
version = "0.1.0"
edition = "2021"
publish = false

[dependencies]
anyhow = "=1.0.104"
bincode = "=1.3.3"
bitvec = "=1.1.1"
dirs = "=5.0.1"
libc = "=0.2.191"
memchr = "=2.8.3"
memmap2 = "=0.9.12"
rayon = "=1.12.0"
rustc-hash = "=2.1.3"
serde = { version = "=1.0.229", features = ["derive"] }
serde_json = "=1.0.154"
sha2 = "=0.10.9"
smallvec = "=1.16.4"
tokio = { version = "1", features = ["macros", "rt-multi-thread"] }
uuid = { version = "=1.29.0", features = ["v4"] }
