[package]
name = "hotaru_mqtt"
version = "0.8.0"
edition = "2021"
publish = false

[dependencies]
bytes = "1"
base64 = "0.22"
pbkdf2 = { version = "0.12", default-features = false, features = ["hmac"] }
hmac = "0.12"
sha2 = "0.10"
subtle = "2"
zeroize = "1"
bcrypt = "0.17"
dashmap = "6"
async-channel = "2"
async-trait = "0.1"
futures-channel = "0.3"
tokio = { version = "1", features = ["full"] }
hotaru_core = "*"
hotaru_io_tokio = "*"
hotaru_rt_tokio = "*"
