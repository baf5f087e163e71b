[package]
name = "macro_railroad_annotation"
version = "0.1.0"
edition = "2021"
publish = false

[dependencies]
base64 = "=0.23.1"
rand = "=0.10.3"
syn = { version = "=3.0.6", features = ["full"] }
quote = "=1.0.47"
proc-macro2 = { version = "=1.0.107", features = ["span-locations"] }
manyhow = "=0.14.0"
