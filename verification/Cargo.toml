[package]
name = "fancy"
version = "0.1.0"
edition = "2021"
publish = false

[dependencies]
getopts = "=0.2.24"
libc = "=0.2.191"
llvm-sys = { version = "=231.0.1", features = ["no-llvm-linking", "disable-alltargets-init"] }
