[package]
name = "minish"
version = "0.1.0"
edition = "2021"
publish = false

[dependencies]
dirs = "*"
libc = "*"
rustyline = "*"
ansi_term = "*"
git2 = "*"
once_cell = "*"
rayon = "*"
