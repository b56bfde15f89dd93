[package]
name = "rvnc"
version = "0.1.0"
edition = "2021"
publish = false

[dependencies]
cipher = "0.4"
des = "0.8"
flate2 = "1"
include_dir = "0.7"
libc = "0.2"
sha1 = "0.10"
x11rb = { version = "0.13", features = ["damage", "randr", "xfixes", "xtest"] }
