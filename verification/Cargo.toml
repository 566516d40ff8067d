[package]
name = "dome"
version = "0.1.0"
edition = "2021"
publish = false

[dependencies]
aes-gcm = "0.10"
argon2 = "0.5"
base64 = "0.22"
rand = "0.8"
cli-table = { version = "0.4", default-features = false }
rpassword = "7"
