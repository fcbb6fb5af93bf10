[package]
name = "zmqrs_parser"
version = "0.1.0"
edition = "2021"
publish = false

[dependencies]
bytes = "0.5"
nom = { version = "5.1", default-features = false, features = ["std"] }
futures_codec = "0.4"
slog = "2"
