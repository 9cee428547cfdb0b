[package]
name = "zoocache"
version = "0.1.0"
edition = "2021"
publish = false

[dependencies]
lz4_flex = "*"
sha2 = "*"
lru = "*"
redis = { version = "*", features = ["r2d2"] }
r2d2 = "*"
lmdb = "*"
