[package]
name = "enscript_markup"
version = "0.1.0"
edition = "2021"
publish = false

[dependencies]
getopts = "0.2"
syntect = { version = "5", default-features = false, features = ["default-fancy"] }
