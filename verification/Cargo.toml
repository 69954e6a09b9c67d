[package]
name = "scan_sheet"
version = "0.1.0"
edition = "2021"
publish = false

[dependencies]
ordered-float = "*"
png = "0.15"
rulinalg = "0.4"
svg = "*"
