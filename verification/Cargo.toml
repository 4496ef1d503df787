[package]
name = "bitscreen"
version = "0.1.0"
edition = "2021"
publish = false

[dependencies]
chrono = "0.4"
fontdue = "0.9"
hidapi = "2"
sysinfo = "0.29"
