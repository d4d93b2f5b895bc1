[package]
name = "khalzam"
version = "0.1.0"
edition = "2021"
publish = false

[dependencies]
minimp3 = "*"
rustfft = "*"
postgres = "*"
r2d2 = "*"
r2d2_postgres = "*"
