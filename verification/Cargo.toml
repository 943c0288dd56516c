[package]
name = "rshell"
version = "0.1.0"
edition = "2021"
publish = false

[dependencies]
string-replace-all = "*"
unicode-segmentation = "1"
