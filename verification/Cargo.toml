[package]
name = "teacher"
version = "0.1.0"
edition = "2021"
publish = false

[dependencies]
base64 = "0.13"
bincode = "1"
bzip2 = "0.4"
chrono = { version = "0.4", default-features = false, features = ["alloc"] }
serde = { version = "1", features = ["derive"] }
serde_derive = "1"
serde_json = "1"
stdweb = "0.4"
