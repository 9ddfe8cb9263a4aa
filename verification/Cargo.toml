[package]
name = "mimicros"
version = "0.1.0"
edition = "2021"
publish = false

[dependencies]
log = "0.4"
aarch64-cpu = "9"
tock-registers = "0.8"
bitflags = "2"
cfg-if = "1"
