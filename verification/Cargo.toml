[package]
name = "dokosa"
version = "0.1.0"
edition = "2021"
publish = false

[dependencies]
noargs = "*"
nojson = "*"
orfail = "*"
