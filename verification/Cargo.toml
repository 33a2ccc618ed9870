[package]
name = "decimal_bytes"
version = "0.1.0"
edition = "2021"
publish = false

[dependencies]
bigdecimal = "0.4"
rust_decimal = "1"
serde = "1"
thiserror = "2"
