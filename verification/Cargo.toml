[package]
name = "mouse_lang"
version = "0.1.0"
edition = "2021"
publish = false

[dependencies]
bincode = { version = "2", features = ["derive"] }
clap = { version = "4", features = ["derive"] }
serde = { version = "1", features = ["derive"] }
strsim = "0.11"
tokio = { version = "1", features = ["fs", "io-util", "macros", "rt", "rt-multi-thread"] }
