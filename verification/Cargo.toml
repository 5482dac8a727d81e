[package]
name = "golomb_set"
version = "0.1.0"
edition = "2021"
publish = false

[dependencies]
bitvec = "*"
byteorder = "*"
num-integer = "*"
md-5 = "*"
