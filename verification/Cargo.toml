[package]
name = "graywalk"
version = "0.1.0"
edition = "2021"
publish = false

[dependencies]
histo = "=1.0.0"
num-bigint = "=0.4.8"
num-rational = "=0.4.2"
num-traits = "=0.2.19"
