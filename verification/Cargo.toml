[package]
name = "linepick"
version = "0.1.0"
edition = "2021"
publish = false

[dependencies]
clap = "2"
libc = "0.2"
rayon = "1"
termion = "*"
termios = "0.3"
unicode-width = "*"
