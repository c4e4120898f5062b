[package]
name = "clann"
version = "0.1.0"
edition = "2021"
publish = false

[dependencies]
chrono = "*"
env_logger = "*"
hdf5 = "*"
indicatif = "*"
log = "*"
ndarray = "*"
rand = "*"
rusqlite = { version = "*", features = ["bundled"] }
serde = { version = "*", features = ["derive"] }
serde_json = "*"
thiserror = "*"

[dev-dependencies]
