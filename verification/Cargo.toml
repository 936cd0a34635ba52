[package]
name = "coi"
version = "0.1.0"
edition = "2021"
publish = false

[dependencies]
anyhow = "=1.0.104"
bincode = "=1.3.3"
calamine = "=0.38.0"
chrono = "=0.4.45"
clap = { version = "=4.6.7", features = ["derive"] }
csv = "=1.4.0"
docx-rs = "=0.4.22"
encoding_rs = "=0.8.44"
fastembed = { version = "=7.5.0", default-features = false, features = ["ort-load-dynamic"] }
ndarray = "=0.17.2"
office_oxide = "=0.1.16"
pdf-extract = "=0.12.1"
serde = { version = "=1.0.229", features = ["derive"] }
serde_json = "=1.0.154"
sha256 = { version = "=1.6.0", default-features = false }
thiserror = "=1.0.69"
walkdir = "=2.5.0"
zip = { version = "=9.2.2", default-features = false, features = ["deflate"] }
