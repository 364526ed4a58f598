[package]
name = "uniform_packer"
version = "0.1.0"
edition = "2021"
publish = false

[dependencies]
legion = "0.2"
