[package]
name = "ikvblob"
version = "0.1.0"
edition = "2021"
publish = false

[dependencies]
base64 = "=0.22.1"
byteorder = "=1.5.0"
ciborium = "=0.2.2"
crc32fast = "=1.5.3"
hex = "=0.4.3"
memmap2 = "=0.9.12"
rand = "=0.8.8"
rayon = "=1.12.0"
siphasher = "=1.0.4"
tokio = { version = "=1.54.1", features = ["macros", "rt-multi-thread"] }
zstd = "=0.13.3"
