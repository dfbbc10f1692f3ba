[package]
name = "pyembed"
version = "0.1.0"
edition = "2021"
publish = false

[dependencies]
byteorder = "1"
python3-sys = "*"
