[package]
name = "jsonmodem-py"
version = "0.1.0"
edition = "2021"
publish = false

[dependencies]
itoa = "=1.0.18"
chrono = { version = "=0.4.45", default-features = false }
simdutf8 = "=0.1.5"
zmij = "=1.0.23"
half = "=2.7.1"
smallvec = "=1.16.4"
pyo3 = "=0.25.1"

[dev-dependencies]
lexical-parse-float = "=1.0.6"
