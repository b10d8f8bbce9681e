[package]
name = "exsurvey"
version = "0.1.0"
edition = "2021"
publish = false

[dependencies]
axum = "=0.8.9"
blake3 = "=1.8.7"
entropyx-ast = "=0.1.0"
entropyx-cli = "=0.1.0"
entropyx-core = "=0.1.0"
entropyx-git = "=0.1.0"
entropyx-graph = "=0.1.0"
entropyx-tq = "=0.1.0"
kstring = "=2.0.2"
rayon = "=1.12.0"
serde = { version = "=1.0.229", features = ["derive"] }
serde_json = "=1.0.154"
tokio = { version = "=1.54.1", features = ["rt-multi-thread", "macros", "net", "process", "signal", "sync"] }
tokio-stream = "=0.1.19"
tower-http = { version = "=0.6.11", features = ["fs", "cors"] }
wasm-bindgen = "=0.2.130"
