[package]
name = "crypt_compress_axum_server"
version = "0.1.0"
edition = "2021"
publish = false

[dependencies]
axum = "*"
tokio = { version = "*", features = ["full"] }
tokio-util = { version = "*", features = ["io"] }
tokio-stream = "*"
futures-util = "*"
bytes = "*"
async-compression = { version = "*", features = ["tokio", "zstd"] }
async-encrypted-stream = "*"
chacha20poly1305 = { version = "*", features = ["stream"] }
zstd = "*"
