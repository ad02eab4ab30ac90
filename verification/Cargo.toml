[package]
name = "cakedb"
version = "0.1.0"
edition = "2021"
publish = false

[dependencies]
redb = "*"
tempfile = "*"
time = "*"
directories = "*"
