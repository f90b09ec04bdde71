[package]
name = "typed_inet"
version = "0.1.0"
edition = "2021"
publish = false

[dependencies]
slotmap = "=1.1.1"
TSPL = "=0.0.13"
