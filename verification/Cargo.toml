[package]
name = "zone_complete"
version = "0.1.0"
edition = "2021"
publish = false

[dependencies]
anyhow = "*"
getopts = "*"
sigpipe = "*"
