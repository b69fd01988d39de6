[package]
name = "gnew"
version = "0.1.0"
edition = "2021"
publish = false

[dependencies]
sha1 = "0.6"
diffy = "*"
chrono = "0.4"
structopt = "0.3"
walkdir = "2"
fs_extra = "*"
similar = "*"
