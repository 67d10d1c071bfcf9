[package]
name = "number_guessing"
version = "0.1.0"
edition = "2021"
publish = false

[dependencies]
im = "15.1.0"
rand = "0.9"
tokio = { version = "1", features = ["rt", "net", "io-util"] }
futures = "0.3"
libc = "0.2"
socket2 = "0.5"
