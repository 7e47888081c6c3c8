[package]
name = "rv64_system"
version = "0.1.0"
edition = "2021"
publish = false

[dependencies]
ed25519-dalek = { version = "2", features = ["pkcs8"] }
getrandom = "0.2"
oxitls-rustcrypto-provider = "*"
pem-rfc7468 = { version = "0.7", features = ["alloc"] }
rcgen = { version = "0.14", default-features = false }
rustls = { version = "0.23", default-features = false, features = ["std"] }
rustls-pki-types = { version = "1", features = ["std"] }
sha2 = "0.10"
