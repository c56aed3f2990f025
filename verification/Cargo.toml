[package]
name = "balamod"
version = "0.1.0"
edition = "2021"
publish = false

[dependencies]
zip = { version = "2", default-features = false, features = ["deflate"] }
flate2 = "1"
libflate = "2"
tar = "0.4"
reqwest = { version = "0.12", default-features = false, features = ["rustls-tls", "stream"] }
smol = "2"
async-compat = "0.2"
easy-parallel = "3"
enable-ansi-support = "0.2"
colour = "2"
textfmt = "*"
winreg = "0.52"
