[package]
name = "coedit"
version = "0.1.0"
edition = "2021"
publish = false

[dependencies]
anyhow = "1"
axum = { version = "0.6", features = ["ws"] }
comemo = "0.4"
console_error_panic_hook = "0.1"
js-sys = "0.3"
parking_lot = "0.12"
serde = { version = "1", features = ["derive"] }
serde-wasm-bindgen = "0.6"
time = "0.3"
tokio = { version = "1", features = ["macros", "rt", "sync"] }
tower-http = { version = "0.4", features = ["fs"] }
tracing = "0.1"
tracing-subscriber = "0.3"
ttf-parser = "0.20"
typst = "0.11"
typst-pdf = "0.11"
wasm-bindgen = "0.2"

[dev-dependencies]
ciborium = "0.2"
