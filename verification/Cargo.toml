[package]
name = "luajit_decompiler"
version = "0.1.0"
edition = "2021"

[dependencies]
byteorder = "1"
regex = "1"
thiserror = "1"
