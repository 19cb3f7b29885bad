[package]
name = "fcoreutils"
version = "0.1.0"
edition = "2021"
publish = false

[dependencies]
itoa = "1"
memchr = "2"
libc = "0.2"
