[package]
name = "pakkub"
version = "0.1.0"
edition = "2021"
publish = false

[dependencies]
byteorder = "1"
flate2 = "1"
clap = { version = "4", features = ["derive"] }
colored = "2"
libc = "0.2"
