[package]
name = "isograph_parser"
version = "0.1.0"
edition = "2021"
publish = false

[dependencies]
logos = "0.12"
strum = { version = "0.26", features = ["derive"] }
thiserror = "1"
colorize = "0.1"
nonempty = "0.10"
