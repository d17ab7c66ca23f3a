[package]
name = "rusty_av1e"
version = "0.1.0"
edition = "2021"
publish = false

[dependencies]
arrayvec = "0.7"
bitstream-io = "*"
byteorder = "1"
rayon = "1"
