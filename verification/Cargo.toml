[package]
name = "fs_tree"
version = "0.1.0"
edition = "2021"
publish = false

[dependencies]
clap = "2"
file_type_enum = "*"
fs-err = "*"
indoc = "*"
lazy_static = "1"
libc = "0.2"
