[package]
name = "daisogen"
version = "0.1.0"
edition = "2021"
publish = false

[dependencies]
hashbrown = "*"
elf = "0.7"
spin = "*"
anyhow = "*"
