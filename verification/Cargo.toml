[package]
name = "qaul"
version = "0.1.0"
edition = "2021"
publish = false

[dependencies]
async-std = "1.12"
base64 = "=0.13.1"
bcrypt = "=0.15.1"
futures = "0.3"
rand = "=0.8.8"
