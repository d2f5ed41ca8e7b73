[package]
name = "apex_core"
version = "0.1.0"
edition = "2021"
publish = false

[dependencies]
rustc-hash = "2"
smallvec = "1"
serde = { version = "1", features = ["derive"] }
serde_json = "1"
postcard = { version = "1", features = ["alloc", "use-std"] }
bincode = "1"
rayon = "1"
log = "0.4"
cgmath = "0.18"
