[package]
name = "genesis"
version = "0.1.0"
edition = "2021"
publish = false

[dependencies]
bevy = { version = "0.15", default-features = false }
clap = { version = "4", features = ["derive"] }
console_error_panic_hook = "0.1"
rand = "0.8"
serde = { version = "1", features = ["derive"] }
serde_json = "1"
smallvec = { version = "1", features = ["serde"] }
