[package]
name = "niho"
version = "0.1.0"
edition = "2021"
publish = false

[dependencies]
nojson = "*"
noargs = "*"
orfail = "*"
