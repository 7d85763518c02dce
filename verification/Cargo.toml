[package]
name = "local_exec"
version = "0.1.0"
edition = "2021"
publish = false

[dependencies]
sha2 = "*"
shell-quote = "*"
tempfile = "*"
libc = "*"
