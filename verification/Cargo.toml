[package]
name = "tcp-sans-io"
version = "0.1.0"
edition = "2021"
publish = false

[dev-dependencies]
smoltcp = { version = "0.12", default-features = false, features = ["std", "medium-ip", "proto-ipv4", "socket-tcp"] }
