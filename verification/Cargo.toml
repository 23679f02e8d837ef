[package]
name = "hdt"
version = "0.1.0"
edition = "2021"

[dependencies]
crc-any = "*"
rsdict = "*"
sucds = "*"
