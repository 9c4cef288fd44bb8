[package]
name = "lox"
version = "0.1.0"
edition = "2021"
publish = false

[dependencies]
fxhash = "0.2"
arrayvec = "0.7"
serde = { version = "1", features = ["derive"] }
