[package]
name = "compiler_front"
version = "0.1.0"
edition = "2021"
publish = false

[dependencies]
axum = "0.6"
tokio = { version = "1", features = ["macros", "rt-multi-thread"] }
tera = "1"
serde = { version = "1", features = ["derive"] }
serde_json = "1"
