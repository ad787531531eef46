[package]
name = "tolearn-core"
version = "0.1.0"
edition = "2021"
publish = false

[dependencies]
sha2 = "0.10"
saphyr = "*"
tar = "*"
flate2 = "*"
zip = "*"
