[package]
name = "dyrah"
version = "0.1.0"
edition = "2021"
publish = false

[dependencies]
argon2 = "=0.5.3"
password-hash = { version = "=0.5.0", features = ["getrandom"] }
pathfinding = "=4.16.0"
rand = "=0.10.3"
glam = { version = "=0.30.10", features = ["serde"] }
serde = { version = "=1.0.229", features = ["derive"] }
serde_json = "=1.0.154"
bincode = "=1.3.3"
secs = "=0.1.0"
wrym = "=0.1.0"
rusqlite = { version = "=0.41.1", features = ["bundled"] }
image = { version = "=0.25.10", default-features = false, features = ["png"] }
egor = { version = "=0.10.0", features = ["ui"] }
