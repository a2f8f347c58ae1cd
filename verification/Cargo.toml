[package]
name = "escapade"
version = "0.1.0"
edition = "2021"
publish = false

[dependencies]
anyhow = "1"
axum = "*"
bitvec = "1"
clap = { version = "4", features = ["derive", "env"] }
crossbeam-channel = "0.5"
libc = "0.2"
memmap2 = "*"
num-format = "*"
rand = "0.9"
rayon = "1"
serde = { version = "1", features = ["derive"] }
serde_json = "1"
sysinfo = "*"
tikv-jemallocator = "*"
tokio = { version = "1", features = ["rt-multi-thread", "macros", "net"] }
xxhash-rust = { version = "0.8", features = ["xxh3"] }
