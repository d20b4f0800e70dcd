[package]
name = "mmtk"
version = "0.1.0"
edition = "2021"
publish = false

[dependencies]
num_cpus = "=1.17.0"
libc = "=0.2.191"
sysinfo = { version = "*", default-features = false, features = ["system"] }
