[package]
name = "word_solver"
version = "0.1.0"
edition = "2021"
publish = false

[dependencies]
prost = { version = "*", default-features = false, features = ["std"] }
tokio = { version = "*", features = ["rt-multi-thread", "macros", "net", "io-util"] }
