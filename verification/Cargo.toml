[package]
name = "tricore-probe"
version = "0.1.0"
edition = "2021"
publish = false

[dependencies]
anyhow = "1"
elf = "0.7"
gdbstub = "0.7"
ihex = "3"
log = "0.4"
