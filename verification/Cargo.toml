[package]
name = "maple-core"
version = "0.1.0"
edition = "2021"
publish = false

[dependencies]
rayon = "1"
iced-x86 = "1"
clap = { version = "4", features = ["derive"] }
serde = { version = "1", features = ["derive"] }
serde_json = "1"
