[package]
name = "kernel"
version = "0.1.0"
edition = "2021"
publish = false

[dependencies]
xmas-elf = "0.9"
log = "0.4"
lazy_static = "1.4"
bitflags = "1.3"
riscv = "*"
buddy_system_allocator = "*"
