[package]
name = "grande"
version = "0.1.0"
edition = "2021"
publish = false

[dependencies]
anyhow = "1"
axum = "*"
bytemuck = { version = "1", features = ["derive"] }
clap = { version = "4", features = ["derive", "env"] }
encoding_rs = "*"
futures-channel = "*"
half = { version = "2", features = ["bytemuck"] }
indexmap = { version = "2", features = ["serde"] }
js-sys = "*"
llama-cpp-2 = { version = "*", default-features = false }
pollster = "*"
serde = { version = "1", features = ["derive"] }
serde_json = { version = "1", features = ["preserve_order"] }
thiserror = "*"
tokenizers = { version = "*", default-features = false, features = ["fancy-regex"] }
tokio = { version = "1", features = ["full"] }
tracing = "*"
tracing-subscriber = { version = "*", features = ["env-filter"] }
wasm-bindgen = "*"
wgpu = "*"
