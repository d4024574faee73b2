[package]
name = "blog_os"
version = "0.1.0"
edition = "2021"
publish = false

[dependencies]
bootloader = { version = "0.9", features = ["map_physical_memory"] }
spin = "0.5"
x86_64 = { version = "0.14", default-features = false, features = ["instructions"] }
