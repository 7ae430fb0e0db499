[package]
name = "cereal"
version = "0.1.0"
edition = "2021"
publish = false

[dependencies]
nom = "7"
thiserror = "1"
tracing = "0.1"
tracing-subscriber = "0.3"
