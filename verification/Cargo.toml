[package]
name = "queue_backend"
version = "0.1.0"
edition = "2021"
publish = false

[dependencies]
twox-hash = { version = "1", default-features = false }
nix = { version = "0.29", features = ["fs", "mman"] }
spin = "0.9"
rustc-serialize = "0.3"
log = "0.4"
