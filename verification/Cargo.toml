[package]
name = "logrustate"
version = "0.1.0"
edition = "2021"
publish = false

[dependencies]
getopts = "*"
libc = "*"
nix = "*"
notify = "*"
