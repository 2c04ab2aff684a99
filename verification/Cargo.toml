[package]
name = "bao_sync"
version = "0.1.0"
edition = "2021"
publish = false

[dependencies]
blake3 = { version = "~1.3", features = ["pure"] }
bytes = "1"
range-collections = "0.4"
smallvec = "1"
