[package]
name = "vmem"
version = "0.1.0"
edition = "2021"
publish = false

[dependencies]
bytemuck = "1"
libc = "0.2"
thiserror = "2"
