[package]
name = "logan_qwen4"
version = "0.1.0"
edition = "2021"
publish = false

[dependencies]
libc = "0.2"
libm = "0.2"
serde_json = "1"
sha2 = "0.10"
