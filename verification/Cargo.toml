[package]
name = "gutenberg"
version = "0.1.0"
edition = "2021"
publish = false

[dependencies]
glob = "0.2"
slug = "0.1"
tera = "0.10"
walkdir = "1"
