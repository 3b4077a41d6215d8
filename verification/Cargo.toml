[package]
name = "colla"
version = "0.4.0"
edition = "2021"
publish = false

[dependencies]
getrandom = "0.2"
