[package]
name = "lwt"
version = "0.2.1"
edition = "2021"
publish = false

[dependencies]
fltk = "1"
fltk-theme = "0.7"
rand = "0.8"
uuid = { version = "1", features = ["v4"] }
