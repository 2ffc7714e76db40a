[package]
name = "ijson"
version = "0.1.0"
edition = "2021"
publish = false

[dependencies]
rkyv = { version = "=0.7.46", features = ["validation"] }
ordered-float = { version = "=3.9.2", features = ["rkyv", "rkyv_ck"] }
