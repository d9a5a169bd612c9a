[package]
name = "websocket_server"
version = "0.1.0"
edition = "2021"
publish = false

[dependencies]
sha1 = "0.1"
rustc-serialize = "0.3"
mio = "0.5"
http-muncher = "0.2"
