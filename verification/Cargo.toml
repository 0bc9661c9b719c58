[package]
name = "grenad"
version = "0.1.0"
edition = "2021"
publish = false

[dependencies]
bytemuck = "1"
byteorder = "1"
snap = "1"
tempfile = "3"
