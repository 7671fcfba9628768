[package]
name = "brs_codec"
version = "0.1.0"
edition = "2021"
publish = false

[dependencies]
bitstream-io = "1.0.0"
byteorder = "1.4.2"
flate2 = "1.0.19"
thiserror = "1.0.23"
