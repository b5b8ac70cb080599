[package]
name = "eusociety"
version = "0.1.0"
edition = "2021"
publish = false

[dependencies]
serde = { version = "1", features = ["derive"] }
serde_json = "1"
bincode = "1.3"
rand = "0.8"
rayon = "1"
thiserror = "1"
glam = "*"
log = "0.4"
