[package]
name = "badwords-core"
version = "3.1.0"
edition = "2021"
publish = false

[dependencies]
aho-corasick = "=1.1.5"
serde = { version = "=1.0.229", features = ["derive"] }
serde_json = "=1.0.154"
strsim = "=0.11.1"
unicode-normalization = "=0.1.26"
ort = "=2.0.0-rc.15"
tokenizers = "0.22"
pyo3 = { version = "0.26", features = ["extension-module"] }
wasm-bindgen = "0.2"
js-sys = "0.3"
serde-wasm-bindgen = "0.6"
