[package]
name = "knotcoin"
version = "0.1.0"
edition = "2021"
publish = false

[dependencies]
sha2 = "=0.10.9"
sha3 = "=0.10.9"
data-encoding = "=2.11.1"
primitive-types = "=0.12.2"
fips204 = "=0.4.6"
pqcrypto-dilithium = "=0.5.0"
pqcrypto-traits = "=0.3.5"
rand_chacha = "=0.3.1"
rand_core = "=0.6.4"
rand = "=0.8.8"
getrandom = "=0.2.17"
hmac = "=0.12.1"
pbkdf2 = "=0.12.2"
argon2 = "=0.5.3"
aes-gcm = "=0.10.3"
serde = { version = "=1.0.229", features = ["derive"] }
serde_json = "=1.0.154"
tokio = { version = "=1.54.1", features = ["full"] }
rayon = "=1.12.0"
socket2 = "=0.5.10"
rocksdb = "=0.22.0"
cxx = "=1.0.205"
hex = "=0.4.3"
hyper = { version = "1", features = ["server", "http1"] }
hyper-util = { version = "0.1", features = ["tokio"] }
http-body-util = "0.1"
colored = "2"
thiserror = "1"
