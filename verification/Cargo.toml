[package]
name = "redactor"
version = "0.1.0"
edition = "2021"
publish = false

[dependencies]
base64 = "*"
siphasher = "*"
exec = "*"
getopts = "*"
pty = "*"
tempdir = "*"
