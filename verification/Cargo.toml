[package]
name = "serde_columnar"
version = "0.3.11"
edition = "2021"
publish = false

[dependencies]
postcard = { version = "=1.1.3", features = ["alloc"] }
serde = "=1.0.229"
thiserror = "=1.0.69"
unicode-ident = "=1.0.27"
proc-macro2 = "=1.0.107"
syn = "=2.0.119"
