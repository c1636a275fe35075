[package]
name = "crxml"
version = "0.1.0"
edition = "2021"
publish = false

[dependencies]
memchr = "=2.8.3"
quick-xml = "=0.37.5"
simdutf8 = "=0.1.5"
lexical = "=7.0.5"
rustc-hash = "=2.1.3"
rypipe-core = { version = "0.3", features = ["mmap"] }
arrow = { version = "=55.2.0", features = ["pyarrow"] }
pyo3 = "*"
rayon = "1"
mimalloc = "*"
