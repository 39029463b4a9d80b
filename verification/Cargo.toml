[package]
name = "url_core"
version = "0.1.0"
edition = "2021"
publish = false

[dependencies]
form_urlencoded = "1"
idna = "1"
