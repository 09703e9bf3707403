[package]
name = "ssd1315"
version = "0.1.0"
edition = "2021"
publish = false

[dependencies]
rppal = "=0.22.1"
font8x8 = "=0.3.1"
