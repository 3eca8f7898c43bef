[package]
name = "dobby"
version = "0.1.0"
edition = "2021"
publish = false

[dependencies]
num_cpus = "1"
libc = "0.2"
nix = "0.23"
libloading = "0.7"
rustc-serialize = "0.3"
lazy_static = "1"
