[package]
name = "xbox_controller_macos_gip"
version = "0.1.0"
edition = "2021"
publish = false

[dependencies]
anyhow = "1"
hex = "0.4"
libc = "0.2"
rusb = "0.9"
