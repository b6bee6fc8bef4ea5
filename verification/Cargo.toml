[package]
name = "onewire"
version = "0.1.0"
edition = "2021"
publish = false

[dependencies]
byteorder = "1"
embedded-hal = "=1.0.0-rc.1"
