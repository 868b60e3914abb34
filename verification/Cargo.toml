[package]
name = "primd"
version = "0.4.0"
edition = "2021"
publish = false

[dependencies]
bytemuck = "=1.25.2"
clap = { version = "4", features = ["derive"] }
instant-distance = "=0.6.1"
js-sys = "0.3"
memmap2 = "0.9"
rand = "=0.9.5"
rayon = "=1.12.0"
serde = { version = "1", features = ["derive"] }
serde_json = "1"
serde-wasm-bindgen = "0.6"
thiserror = "2"
tiny_http = "0.12"
ureq = { version = "2", features = ["json"] }
wasm-bindgen = "0.2"
fastembed = { version = "=4.9.1", default-features = false, features = ["ort-load-dynamic", "hf-hub-rustls-tls"] }
