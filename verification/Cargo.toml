[package]
name = "form_codec"
version = "0.1.0"
edition = "2021"
publish = false

[dependencies]
form_urlencoded = "1"
