[package]
name = "gamedata_codec"
version = "0.1.0"
edition = "2021"
publish = false

[dependencies]
anyhow = "1"
crc32fast = "1"
deflate = "*"
inflate = "*"
