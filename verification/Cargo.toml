[package]
name = "projectrtp"
version = "0.1.0"
edition = "2021"
publish = false

[dependencies]
async-trait = "=0.1.92"
bytes = "=1.12.1"
crc32fast = "=1.5.4"
hmac = "=0.12.1"
parking_lot = "=0.12.5"
sha1 = "=0.10.7"
sha2 = "=0.10.9"
tokio = { version = "=1.54.1", features = ["full"] }
tokio-util = "=0.7.20"
webrtc-dtls = "=0.12.0"
webrtc-srtp = "=0.17.2"
webrtc-util = "=0.11.0"
