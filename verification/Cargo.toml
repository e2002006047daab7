[package]
name = "box_format"
version = "0.1.0"
edition = "2021"
publish = false

[dependencies]
comde = "=0.3.1"
memmap = "=0.7.0"
unicode-normalization = "=0.1.25"

[dev-dependencies]
byteorder = "=1.5.0"
vlq-rust = "*"
