[package]
name = "mosaic_core"
version = "0.1.0"
edition = "2021"
publish = false

[dependencies]
arrow-array = { version = "=60.1.0", features = ["ffi"] }
arrow-buffer = "=60.1.0"
arrow-schema = "=60.1.0"
jni = "=0.21.1"
ryu = "=1.0.23"
sha2 = "=0.10.9"
zstd = "=0.13.4"
zstd-safe = "=7.4.0"
