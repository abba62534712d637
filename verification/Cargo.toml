[package]
name = "hem_service"
version = "0.1.0"
edition = "2021"
publish = false

[dependencies]
serde_json = { version = "1", features = ["preserve_order"] }
serde = { version = "1", features = ["derive"] }
thiserror = "2"
anyhow = "1"
eqsolver = "*"
interp = "*"
roots = "*"
axum = "*"
tokio = { version = "1", features = ["rt-multi-thread", "macros", "net", "signal"] }
tracing = "0.1"
tracing-subscriber = "0.3"
yew = { version = "*", features = ["csr"] }
gloo-net = { version = "*", features = ["http", "json"] }
web-sys = { version = "0.3", features = ["HtmlInputElement", "HtmlSelectElement"] }
wasm-bindgen-futures = "0.4"
