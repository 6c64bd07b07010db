[package]
name = "avml"
version = "0.1.0"
edition = "2021"
publish = false

[dependencies]
byteorder = "1.5"
elf = "0.7"
md5 = "0.7"
snap = "1.1"
url = "2.5"
async-channel = "2"
azure_core = { version = "0.21", default-features = false, features = ["enable_reqwest_rustls", "hmac_rust"] }
azure_storage_blobs = { version = "0.21", default-features = false, features = ["enable_reqwest_rustls", "hmac_rust"] }
backoff = { version = "0.4", features = ["tokio"] }
bytes = "1"
clap = { version = "4.5", features = ["derive"] }
futures = "0.3"
indicatif = "0.17"
libc = "0.2"
reqwest = { version = "0.12", default-features = false, features = ["rustls-tls", "stream"] }
thiserror = "2"
tokio = { version = "1", features = ["fs", "io-util", "rt-multi-thread"] }
tokio-util = { version = "0.7", features = ["codec"] }
