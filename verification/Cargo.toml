[package]
name = "samsara"
version = "0.1.0"
edition = "2021"
publish = false

[dependencies]
blake3 = { version = "=1.8.7", features = ["pure"] }
clap = { version = "4", features = ["derive"] }
rand = { version = "=0.8.8", default-features = false }
rand_chacha = { version = "=0.3.1", default-features = false }
serde = { version = "1", features = ["derive"] }
serde_json = { version = "=1.0.154", features = ["preserve_order"] }
tiny_http = "0.12"
toml = "0.8"
ureq = "2"
wasm-bindgen = "0.2"
