[package]
name = "scraps"
version = "0.1.0"
edition = "2021"
publish = false

[dependencies]
fdt-rs = { version = "0.4", default-features = false }
spin = "0.7"
register = "1"
cortex-a = "5"
bitflags = "1"
modular-bitfield = "0.11"
