[package]
name = "ftrace"
version = "0.1.0"
edition = "2021"
publish = false

[dependencies]
elf = "0.7"
libc = "0.2"

[dev-dependencies]
rand = "0.8"
