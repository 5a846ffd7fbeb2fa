[package]
name = "zfs-dedup"
version = "0.1.0"
edition = "2021"
publish = false

[dependencies]
anyhow = "1"
lexopt = "0.3"
mimalloc = { version = "0.1", default-features = false }
rayon = "1"
redb = "3"
rustix = { version = "1", features = ["fs", "mount", "thread"] }
tempfile = "3"
xxhash-rust = { version = "0.8", features = ["xxh3"] }
