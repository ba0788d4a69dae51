[package]
name = "kvstore"
version = "0.1.0"
edition = "2021"
publish = false

[dependencies]
byteorder = "1"
crc = "3"
md5 = "0.7"
num = "0.4"
