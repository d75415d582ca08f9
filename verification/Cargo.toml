[package]
name = "agora"
version = "0.1.0"
edition = "2021"
publish = false

[dependencies]
anyhow = "1"
async-nats = "*"
futures = "0.3"
serde = { version = "1", features = ["derive"] }
serde_json = "1"
tokio = { version = "1", features = ["macros", "rt", "time"] }
wasmtime = { version = "41", default-features = false, features = ["component-model", "cranelift", "runtime", "std"] }
wasmtime-wasi = "41"
