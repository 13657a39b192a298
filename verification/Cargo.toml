[package]
name = "gall_rs"
version = "0.1.0"
edition = "2021"
publish = false

[dependencies]
bstr = "1"
sha2 = "0.10"
lazy_static = "1"
r2d2 = "0.8"
r2d2_sqlite = "0.24"
rusqlite = { version = "0.31", features = ["bundled"] }
tera = { version = "1", default-features = false }
