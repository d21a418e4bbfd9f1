[package]
name = "rinha-backend-2026-luckstai-rust"
version = "0.1.0"
edition = "2021"
publish = false

[dependencies]
actix-web = "4"
anyhow = "1"
bytemuck = { version = "1", features = ["derive"] }
flate2 = "1"
memmap2 = "0.9"
serde = { version = "1", features = ["derive"] }
serde_json = "1"
time = { version = "0.3", features = ["parsing", "macros"] }
