[package]
name = "ls_web"
version = "0.1.0"
edition = "2021"
publish = false

[dependencies]
urlencoding = "2"
zip = { version = "0.6", default-features = false, features = ["deflate", "time"] }
flate2 = "1"
tar = "0.4"
walkdir = "2"
colored = "2"
