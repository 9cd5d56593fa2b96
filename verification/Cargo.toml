[package]
name = "brainbox"
version = "0.1.0"
edition = "2021"
publish = false

[dependencies]
chacha20poly1305 = "*"
pbkdf2 = "*"
sha2 = "*"
rand = "*"
uuid = { version = "*", features = ["v4"] }
chrono = "*"
rusqlite = { version = "*", features = ["bundled"] }
serde = { version = "*", features = ["derive"] }
serde_json = "*"
dirs = "*"
whoami = "*"
