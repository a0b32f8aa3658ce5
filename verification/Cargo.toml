[package]
name = "minihttp"
version = "0.1.0"
edition = "2021"
publish = false

[dependencies]
sha2 = "*"
urlencoding = "*"
rusqlite = { version = "*", features = ["bundled"] }
libc = "*"
