[package]
name = "strand"
version = "0.1.0"
edition = "2021"
publish = false

[dependencies]
anyhow = "1"
bytemuck = { version = "1", features = ["derive"] }
glyphon = "0.12"
miette = "7"
pollster = "0.4"
taffy = "0.15"
tokio = { version = "1", features = ["rt", "rt-multi-thread", "macros", "sync", "time", "io-std", "test-util"] }
tower-lsp-server = "0.23"
wasmtime = { version = "48", default-features = false, features = ["anyhow", "runtime", "cranelift", "async", "std", "wat"] }
wgpu = { version = "30", default-features = false, features = ["std", "wgsl", "vulkan"] }
winit = { version = "0.30", default-features = false, features = ["rwh_06", "x11"] }
