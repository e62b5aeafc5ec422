[package]
name = "terminus_store"
version = "0.1.0"
edition = "2021"
publish = false

[dependencies]
byteorder = "1"
bytes = "0.4"
crc = "1.8"
failure = "0.1"
fs2 = "0.4"
futures = "0.1"
log = "0.4"
memmap = "0.7"
tokio = "0.1"
tokio-threadpool = "0.1"
uuid = "0.8"
yaml-rust = "0.4"
