[package]
name = "tect"
version = "0.1.0"
edition = "2021"
publish = false

[dependencies]
kdl = "6"
clap = { version = "4", features = ["derive"] }
libc = "0.2"
