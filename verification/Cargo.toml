[package]
name = "chunked_render"
version = "0.1.0"
edition = "2021"
publish = false

[dependencies]
display-interface = "=0.5.0"
embedded-graphics = "=0.8.2"
