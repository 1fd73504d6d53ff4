[package]
name = "webp_batch"
version = "0.1.0"
edition = "2021"
publish = false

[dependencies]
clap = { version = "4", features = ["derive"] }
futures = "0.3"
image = "0.25"
tokio = { version = "1", features = ["rt-multi-thread", "macros"] }
webp = "*"
