[package]
name = "ek_ek"
version = "0.1.0"
edition = "2021"
publish = false

[dependencies]
libc = "0.2"
log = "0.4"
openssl = "0.10"
serde = { version = "1", features = ["derive"] }
serde_json = "1"
socket2 = { version = "0.6", features = ["all"] }
ureq = { version = "3", default-features = false, features = ["native-tls", "platform-verifier"] }
