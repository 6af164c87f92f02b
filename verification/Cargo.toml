[package]
name = "cdi-serial"
version = "0.1.0"
edition = "2021"
publish = false

[dependencies]
anyhow = "1"
clap = { version = "4", features = ["derive"] }
fuser = { version = "*", default-features = false }
libc = "0.2"
serialport = { version = "4", default-features = false }
