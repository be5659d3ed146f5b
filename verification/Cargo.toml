[package]
name = "nyauxkt"
version = "0.1.0"
edition = "2021"
publish = false

[dependencies]
hashbrown = "0.15"
limine = "0.5"
bitflags = "*"
spin = "*"
owo-colors = "*"
lazy_static = "*"
flanterm_bindings = "*"
