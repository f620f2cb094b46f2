[package]
name = "cbor_codec"
version = "0.1.0"
edition = "2021"
publish = false

[dependencies]
serde = "1"
half = "2"
