[package]
name = "whisper"
version = "0.1.0"
edition = "2021"
publish = false

[dependencies]
byteorder = "1"
libc = "0.2"
memmap = "0.5"
time = "0.1"
