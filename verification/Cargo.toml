[package]
name = "sarc"
version = "0.1.0"
edition = "2021"

[dependencies]
yaz0 = "=0.3.0"
zstd = "=0.14.3"

[dev-dependencies]
binwrite = "=0.2.1"
nom = "=5.1.3"
